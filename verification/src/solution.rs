use vstd::prelude::*;

use crate::answer_model::valid_state;
use crate::board::{
    beam_partial, beam_result, beamed, beamed_before, clue_step, clue_upto, count_of, fill, is_solution,
    lamps_apart, lemma_clue_upto_stays_broken, wall_counts, Board,
};
use crate::techniques::clue_cases::zeros_of;
use crate::rules::{
    ext_cell, extends, forced, lemma_extends_decided, lemma_extends_refines, lemma_lights_own_reach, keeps_solutions, lemma_count_extends, lemma_count_extends_at,
    lemma_keeps_refl, lemma_refines_refl, lemma_refines_trans,
    lemma_refines_zeros, lemma_set_forced, lemma_zeros_update, refines,
    solves, unsolvable, zeros,
};

verus! {

/// The solution count of a board: none, one, two or more, or unknown when
/// the search budget ran out.
#[derive(Debug, Clone, Copy, PartialEq, Eq, Structural)]
pub enum SolutionCount {
    Empty,
    Unique,
    Multiple,
    Unknown,
}

/// Every lamp's beam holds no undecided cell.
pub open spec fn beams_settled(b: &Board, s: Seq<u8>) -> bool {
    forall|i: int, k: int|
        0 <= i < s.len() && 0 <= k < b.beam(i).len() && s[i] == 1 ==> s[#[trigger] b.beam(i)[k] as int] != 0
}

/// One round of the search's propagation on `s`: lamp beams, then the clue
/// rules of all numbered walls in order.
pub open spec fn prop_round(b: &Board, s: Seq<u8>) -> (bool, Seq<u8>) {
    clue_upto(b, beam_result(b, s), b.walls@.len())
}

/// The search's propagation of `s`: rounds until one fails (`false`) or
/// changes nothing (the undecided cells never grow).
pub open spec fn propagate_spec(b: &Board, s: Seq<u8>) -> (bool, Seq<u8>)
    decreases zeros(s),
{
    let r = prop_round(b, s);
    if !r.0 {
        r
    } else if zeros(r.1) < zeros(s) {
        propagate_spec(b, r.1)
    } else {
        (true, r.1)
    }
}

/// The undecided cells of `nb` are those of its cells that `s` leaves
/// undecided, each once when `nb` has no repeats.
proof fn lemma_zeros_of_members(s: Seq<u8>, nb: Seq<usize>)
    ensures
        forall|x: usize| #[trigger] zeros_of(s, nb).contains(x) <==> (nb.contains(x) && s[x as int] == 0),
        nb.no_duplicates() ==> zeros_of(s, nb).no_duplicates(),
    decreases nb.len(),
{
    if nb.len() > 0 {
        let p = nb.drop_last();
        lemma_zeros_of_members(s, p);
        let z = zeros_of(s, nb);
        let zp = zeros_of(s, p);
        assert forall|x: usize| #[trigger] z.contains(x) <==> (nb.contains(x) && s[x as int] == 0) by {
            if z.contains(x) {
                let q = choose|q: int| 0 <= q < z.len() && z[q] == x;
                if q < zp.len() {
                    assert(zp[q] == x);
                    assert(zp.contains(x));
                    assert(p.contains(x));
                    let j = choose|j: int| 0 <= j < p.len() && p[j] == x;
                    assert(nb[j] == x);
                } else {
                    assert(s[nb.last() as int] == 0);
                    assert(z[q] == nb.last());
                    assert(nb[nb.len() - 1] == x);
                }
            }
            if nb.contains(x) && s[x as int] == 0 {
                let j = choose|j: int| 0 <= j < nb.len() && nb[j] == x;
                if j < nb.len() - 1 {
                    assert(p[j] == x);
                    assert(zp.contains(x));
                    let q = choose|q: int| 0 <= q < zp.len() && zp[q] == x;
                    assert(z[q] == x);
                } else {
                    assert(z[z.len() - 1] == x);
                }
            }
        }
        if nb.no_duplicates() {
            assert(p.no_duplicates());
            if s[nb.last() as int] == 0 {
                assert(!zp.contains(nb.last())) by {
                    if zp.contains(nb.last()) {
                        let j = choose|j: int| 0 <= j < p.len() && p[j] == nb.last();
                        assert(nb[j] == nb[nb.len() - 1]);
                    }
                }
                assert forall|a: int, c: int| 0 <= a < c < z.len() implies z[a] != z[c] by {
                    if c == z.len() - 1 {
                        assert(zp[a] == z[a]);
                    } else {
                        assert(zp[a] == z[a] && zp[c] == z[c]);
                    }
                }
            }
        }
    } else {
        assert(zeros_of(s, nb) =~= Seq::<usize>::empty());
    }
}

/// Lamp beams and the numbered wall rule applied until nothing changes:
/// an undecided cell in a beam gets no lamp; a wall whose lamps match its
/// clue forbids its undecided neighbours; a wall whose lamps and undecided
/// neighbours just match gets lamps on them. Returns false on a
/// contradiction (a wall that cannot be satisfied).
fn propagate(board: &Board, state: &mut Vec<u8>) -> (ok: bool)
    requires
        board.wf(),
        old(state)@.len() == board.n(),
        valid_state(old(state)@),
    ensures
        final(state)@.len() == old(state)@.len(),
        !ok ==> unsolvable(board, old(state)@),
        refines(final(state)@, old(state)@),
        valid_state(final(state)@),
        ok ==> {
            &&& keeps_solutions(board, old(state)@, final(state)@)
            &&& beams_settled(board, final(state)@)
        },
        ok == propagate_spec(board, old(state)@).0,
        ok ==> final(state)@ == propagate_spec(board, old(state)@).1,
{
    let ghost s0 = state@;
    let n = state.len();
    proof {
        lemma_keeps_refl(board, s0);
        lemma_refines_refl(s0);
    }
    loop
        invariant
            board.wf(),
            n == s0.len() == state@.len() == board.n(),
            s0 == old(state)@,
            valid_state(state@),
            keeps_solutions(board, s0, state@),
            refines(state@, s0),
            propagate_spec(board, s0) == propagate_spec(board, state@),
        ensures
            beams_settled(board, state@),
            propagate_spec(board, s0) == (true, state@),
        decreases zeros(state@),
    {
        let ghost pass_start = state@;
        let mut changed = false;
        let mut i: usize = 0;
        proof {
            assert(beam_partial(board, pass_start, 0, 0) =~= pass_start);
        }
        while i < n
            invariant
                board.wf(),
                n == s0.len() == state@.len() == board.n(),
                s0 == old(state)@,
                valid_state(state@),
                keeps_solutions(board, s0, state@),
                refines(state@, s0),
                refines(state@, pass_start),
                refines(pass_start, s0),
                i <= n,
                !changed ==> state@ == pass_start,
                changed ==> zeros(state@) < zeros(pass_start),
                forall|j: int| 0 <= j < n ==> (#[trigger] state@[j] == 1 <==> pass_start[j] == 1),
                !changed ==> forall|j: int, k: int| 0 <= j < i && 0 <= k < board.beam(j).len() && state@[j] == 1 ==> state@[#[trigger] board.beam(j)[k] as int] != 0,
                state@ == beam_partial(board, pass_start, i as int, 0),
            decreases n - i,
        {
            if state[i] == 1 {
                let lr = &board.lamp_reach[i];
                assert(lr@ == board.beam(i as int));
                let mut k: usize = 0;
                while k < lr.len()
                    invariant
                        board.wf(),
                        n == s0.len() == state@.len() == board.n(),
                        s0 == old(state)@,
                s0 == old(state)@,
                        valid_state(state@),
                        keeps_solutions(board, s0, state@),
                        refines(state@, s0),
                        refines(state@, pass_start),
                        refines(pass_start, s0),
                        i < n,
                        state@[i as int] == 1,
                        lr@ == board.beam(i as int),
                        k <= lr@.len(),
                        !changed ==> state@ == pass_start,
                        changed ==> zeros(state@) < zeros(pass_start),
                        forall|j: int| 0 <= j < n ==> (#[trigger] state@[j] == 1 <==> pass_start[j] == 1),
                        !changed ==> forall|j: int, kk: int| 0 <= j < i && 0 <= kk < board.beam(j).len() && state@[j] == 1 ==> state@[#[trigger] board.beam(j)[kk] as int] != 0,
                        !changed ==> forall|kk: int| 0 <= kk < k ==> state@[#[trigger] board.beam(i as int)[kk] as int] != 0,
                        pass_start[i as int] == 1,
                        state@ == beam_partial(board, pass_start, i as int, k as int),
                    decreases lr@.len() - k,
                {
                    let c = lr[k];
                    assert(board.beam(i as int)[k as int] == c);
                    let ghost cur = state@;
                    let ghost next = beam_partial(board, pass_start, i as int, k + 1);
                    if state[c] == 0 {
                        let ghost st = state@;
                        proof {
                            lemma_beam_forced_at(board, st, i as int, k as int);
                            assert(forced(board, s0, c as int, 2)) by {
                                assert forall|t: Seq<u8>| #[trigger] solves(board, t, s0) implies t[c as int] == 2 by {
                                    assert(solves(board, t, st));
                                }
                            }
                            lemma_set_forced(board, s0, st, c as int, 2);
                            lemma_zeros_update(st, c as int, 2);
                            lemma_refines_zeros(st, pass_start);
                        }
                        state.set(c, 2);
                        proof {
                            assert forall|x: int| 0 <= x < n implies crate::rules::ref_cell(state@[x], pass_start[x]) by {
                                assert(crate::rules::ref_cell(st[x], pass_start[x]));
                            }
                            assert(refines(state@, pass_start));
                        }
                        changed = true;
                    }
                    proof {
                        assert(c < n);
                        assert(state@ =~= next) by {
                            assert forall|x: int| 0 <= x < n implies state@[x] == next[x] by {
                                if x == c {
                                    assert(beamed_before(board, pass_start, i as int, k + 1, x));
                                } else {
                                    if pass_start[x] == 0 && beamed_before(board, pass_start, i as int, k + 1, x) {
                                        let (j, kk) = choose|j: int, kk: int|
                                            0 <= j < pass_start.len() && 0 <= kk < board.beam(j).len() && pass_start[j] == 1
                                                && #[trigger] board.beam(j)[kk] == x && (j < i || (j == i && kk < k + 1));
                                        if j == i && kk == k {
                                            assert(false);
                                        }
                                        assert(beamed_before(board, pass_start, i as int, k as int, x));
                                    }
                                    if pass_start[x] == 0 && beamed_before(board, pass_start, i as int, k as int, x) {
                                        let (j, kk) = choose|j: int, kk: int|
                                            0 <= j < pass_start.len() && 0 <= kk < board.beam(j).len() && pass_start[j] == 1
                                                && #[trigger] board.beam(j)[kk] == x && (j < i || (j == i && kk < k));
                                        assert(beamed_before(board, pass_start, i as int, k + 1, x));
                                    }
                                }
                            }
                        }
                    }
                    k += 1;
                }
                proof {
                    assert(beam_partial(board, pass_start, i as int, k as int) =~= beam_partial(board, pass_start, i + 1, 0)) by {
                        assert forall|x: int| 0 <= x < n implies beamed_before(board, pass_start, i as int, k as int, x)
                            == beamed_before(board, pass_start, i + 1, 0, x) by {
                            if beamed_before(board, pass_start, i + 1, 0, x) {
                                let (j, kk) = choose|j: int, kk: int|
                                    0 <= j < pass_start.len() && 0 <= kk < board.beam(j).len() && pass_start[j] == 1
                                        && #[trigger] board.beam(j)[kk] == x && (j < i + 1 || (j == i + 1 && kk < 0));
                                assert(beamed_before(board, pass_start, i as int, k as int, x));
                            }
                        }
                    }
                }
            } else {
                proof {
                    assert(beam_partial(board, pass_start, i as int, 0) =~= beam_partial(board, pass_start, i + 1, 0)) by {
                        assert forall|x: int| 0 <= x < n implies beamed_before(board, pass_start, i as int, 0, x)
                            == beamed_before(board, pass_start, i + 1, 0, x) by {
                            if beamed_before(board, pass_start, i + 1, 0, x) {
                                let (j, kk) = choose|j: int, kk: int|
                                    0 <= j < pass_start.len() && 0 <= kk < board.beam(j).len() && pass_start[j] == 1
                                        && #[trigger] board.beam(j)[kk] == x && (j < i + 1 || (j == i + 1 && kk < 0));
                                assert(j != i);
                                assert(beamed_before(board, pass_start, i as int, 0, x));
                            }
                        }
                    }
                }
            }
            i += 1;
        }
        proof {
            assert(beam_partial(board, pass_start, n as int, 0) =~= beam_result(board, pass_start)) by {
                assert forall|x: int| 0 <= x < n implies beamed_before(board, pass_start, n as int, 0, x)
                    == beamed(board, pass_start, x) by {
                    if beamed(board, pass_start, x) {
                        let (j, kk) = choose|j: int, kk: int|
                            0 <= j < pass_start.len() && 0 <= kk < board.beam(j).len() && pass_start[j] == 1
                                && #[trigger] board.beam(j)[kk] == x;
                        assert(beamed_before(board, pass_start, n as int, 0, x));
                    }
                }
            }
        }
        let ghost bstate = state@;
        let mut w: usize = 0;
        while w < board.walls.len()
            invariant
                board.wf(),
                n == s0.len() == state@.len() == board.n(),
                s0 == old(state)@,
                valid_state(state@),
                keeps_solutions(board, s0, state@),
                refines(state@, s0),
                refines(state@, pass_start),
                refines(pass_start, s0),
                w <= board.walls@.len(),
                !changed ==> state@ == pass_start,
                changed ==> zeros(state@) < zeros(pass_start),
                !changed ==> beams_settled(board, state@),
                bstate == beam_result(board, pass_start),
                clue_upto(board, bstate, w as nat) == (true, state@),
                propagate_spec(board, s0) == propagate_spec(board, pass_start),
            decreases board.walls@.len() - w,
        {
            let (wall, digit) = board.walls[w];
            assert(wall == board.wall_cell(w as int) && digit == board.wall_digit(w as int));
            let ghost cur = state@;
            let ghost nbs = board.nbrs(wall as int);
            let (used, undecided_count) = wall_counts(board, state.as_slice(), wall);
            if used > digit || used + undecided_count < digit {
                proof {
                    assert forall|t: Seq<u8>| !#[trigger] solves(board, t, s0) by {
                        if solves(board, t, s0) {
                            assert(solves(board, t, cur));
                            assert forall|qq: int| 0 <= qq < nbs.len() implies #[trigger] nbs[qq] < cur.len() by {}
                            lemma_count_extends(t, cur, nbs);
                            assert(count_of(t, board.nbrs(board.wall_cell(w as int)), 1) == board.wall_digit(w as int));
                        }
                    }
                    assert(!clue_upto(board, bstate, (w + 1) as nat).0);
                    lemma_clue_upto_stays_broken(board, bstate, (w + 1) as nat, board.walls@.len());
                }
                return false;
            }
            if used == digit || used + undecided_count == digit {
                let undecided = undecided_neighbors(board, state, wall);
                let set_value: u8 = if used == digit { 2 } else { 1 };
                let mut q: usize = 0;
                proof {
                    lemma_zeros_of_members(cur, nbs);
                    assert(fill(cur, undecided@.take(0), set_value) =~= cur);
                }
                while q < undecided.len()
                    invariant
                        board.wf(),
                        n == s0.len() == state@.len() == board.n(),
                        s0 == old(state)@,
                s0 == old(state)@,
                        valid_state(state@),
                        keeps_solutions(board, s0, state@),
                        keeps_solutions(board, s0, cur),
                        refines(cur, s0),
                        refines(state@, s0),
                        refines(state@, pass_start),
                        refines(pass_start, s0),
                        refines(state@, cur),
                        w < board.walls@.len(),
                        wall == board.wall_cell(w as int),
                        digit == board.wall_digit(w as int),
                        nbs == board.nbrs(wall as int),
                        wall < n,
                        used == count_of(cur, nbs, 1),
                        undecided_count == count_of(cur, nbs, 0),
                        set_value == 2 ==> used == digit,
                        set_value == 1 ==> used + undecided_count == digit,
                        set_value == 1 || set_value == 2,
                        forall|qq: int| 0 <= qq < undecided@.len() ==> #[trigger] undecided@[qq] < n && cur[undecided@[qq] as int] == 0 && nbs.contains(undecided@[qq]),
                        forall|x: int| 0 <= x < n && #[trigger] state@[x] != cur[x] ==> state@[x] == set_value,
                        q <= undecided@.len(),
                        !changed ==> beams_settled(board, state@),
                        !changed ==> state@ == pass_start,
                        changed ==> zeros(state@) < zeros(pass_start),
                        undecided@ == zeros_of(cur, nbs),
                        undecided@.no_duplicates(),
                        state@ == fill(cur, undecided@.take(q as int), set_value),
                    decreases undecided@.len() - q,
                {
                    let u = undecided[q];
                    proof {
                        assert(!undecided@.take(q as int).contains(u)) by {
                            if undecided@.take(q as int).contains(u) {
                                let j = choose|j: int| 0 <= j < q && #[trigger] undecided@.take(q as int)[j] == u;
                                assert(undecided@[j] == undecided@[q as int]);
                            }
                        }
                        assert(state@[u as int] == 0);
                    }
                    if state[u] == 0 {
                        let ghost st = state@;
                        proof {
                            assert(forced(board, s0, u as int, set_value)) by {
                                assert forall|t: Seq<u8>| #[trigger] solves(board, t, s0) implies t[u as int] == set_value by {
                                    assert(solves(board, t, cur));
                                    assert forall|qq: int| 0 <= qq < nbs.len() implies #[trigger] nbs[qq] < cur.len() by {}
                                    lemma_count_extends_at(t, cur, nbs, u as int);
                                    assert(count_of(t, board.nbrs(board.wall_cell(w as int)), 1) == board.wall_digit(w as int));
                                    assert(ext_cell(t[u as int], cur[u as int]));
                                }
                            }
                            lemma_set_forced(board, s0, st, u as int, set_value);
                            lemma_zeros_update(st, u as int, set_value);
                            lemma_refines_zeros(st, pass_start);
                        }
                        state.set(u, set_value);
                        proof {
                            assert forall|x: int| 0 <= x < n implies crate::rules::ref_cell(state@[x], pass_start[x]) by {
                                assert(crate::rules::ref_cell(st[x], pass_start[x]));
                            }
                            assert forall|x: int| 0 <= x < n implies crate::rules::ref_cell(state@[x], cur[x]) by {
                                assert(crate::rules::ref_cell(st[x], cur[x]));
                            }
                        }
                        changed = true;
                    } else if state[u] == set_value {
                    } else {
                        proof {
                            assert(state@[u as int] != cur[u as int]);
                        }
                        return false;
                    }
                    proof {
                        assert forall|x: usize| #[trigger] undecided@.take(q + 1).contains(x) <==> (undecided@.take(q as int).contains(x) || x == u) by {
                            if undecided@.take(q + 1).contains(x) {
                                let j = choose|j: int| 0 <= j < q + 1 && #[trigger] undecided@.take(q + 1)[j] == x;
                                if j < q {
                                    assert(undecided@.take(q as int)[j] == x);
                                }
                            }
                            if undecided@.take(q as int).contains(x) {
                                let j = choose|j: int| 0 <= j < q && #[trigger] undecided@.take(q as int)[j] == x;
                                assert(undecided@.take(q + 1)[j] == x);
                            }
                            if x == u {
                                assert(undecided@.take(q + 1)[q as int] == x);
                            }
                        }
                        assert(state@ =~= fill(cur, undecided@.take(q + 1), set_value));
                    }
                    q += 1;
                }
                proof {
                    assert(undecided@.take(q as int) =~= undecided@);
                    assert(state@ =~= fill(cur, nbs, set_value));
                    assert(clue_step(board, cur, w as int) == (true, state@));
                }
            } else {
                proof {
                    assert(clue_step(board, cur, w as int) == (true, cur));
                }
            }
            w += 1;
        }
        proof {
            assert(prop_round(board, pass_start) == (true, state@));
            if changed {
                assert(propagate_spec(board, pass_start) == propagate_spec(board, state@));
            }
        }
        if !changed {
            break;
        }
    }
    true
}

/// A cell in the beam of a lamp holds no lamp in any solution.
proof fn lemma_beam_forced_at(b: &Board, s: Seq<u8>, i: int, k: int)
    requires
        b.wf(),
        s.len() == b.n(),
        0 <= i < s.len(),
        0 <= k < b.beam(i).len(),
        s[i] == 1,
        s[b.beam(i)[k] as int] == 0,
    ensures
        forced(b, s, b.beam(i)[k] as int, 2),
{
    let c = b.beam(i)[k] as int;
    assert forall|t: Seq<u8>| #[trigger] solves(b, t, s) implies t[c] == 2 by {
        assert(ext_cell(t[i], s[i]));
        assert(ext_cell(t[c], s[c]));
        assert(t[b.beam(i)[k] as int] != 1);
    }
}

/// Whether two lamps of `state` light each other.
fn lamp_conflict(board: &Board, state: &[u8]) -> (r: bool)
    requires
        board.wf(),
        state@.len() == board.n(),
    ensures
        r == !board.no_lamp_conflict(state@),
{
    !lamps_apart(board, state)
}


/// The undecided neighbours of `cell`, in order.
fn undecided_neighbors(board: &Board, state: &Vec<u8>, cell: usize) -> (r: Vec<usize>)
    requires
        board.wf(),
        state@.len() == board.n(),
        cell < board.n(),
    ensures
        forall|qq: int| 0 <= qq < r@.len() ==> #[trigger] r@[qq] < board.n() && state@[r@[qq] as int] == 0 && board.nbrs(cell as int).contains(r@[qq]),
        r@ == zeros_of(state@, board.nbrs(cell as int)),
{
    let nb = &board.neighbors[cell];
    assert(nb@ == board.nbrs(cell as int));
    let mut undecided: Vec<usize> = Vec::new();
    let mut q: usize = 0;
    while q < nb.len()
        invariant
            board.wf(),
            state@.len() == board.n(),
            nb@ == board.nbrs(cell as int),
            cell < board.n(),
            q <= nb@.len(),
            forall|qq: int| 0 <= qq < undecided@.len() ==> #[trigger] undecided@[qq] < board.n() && state@[undecided@[qq] as int] == 0 && board.nbrs(cell as int).contains(undecided@[qq]),
            undecided@ == zeros_of(state@, nb@.take(q as int)),
        decreases nb@.len() - q,
    {
        let c = nb[q];
        assert(board.nbrs(cell as int)[q as int] == c);
        assert(nb@.take(q + 1).drop_last() =~= nb@.take(q as int));
        if state[c] == 0 {
            undecided.push(c);
        }
        q += 1;
    }
    assert(nb@.take(q as int) =~= nb@);
    undecided
}


/// The search stops counting at two solutions.
pub const CAP: u32 = 2;

/// The search gives up (unknown) beyond this many nodes.
pub const LIMIT: u64 = 2_000_000;

/// A bound on the nodes of the search below a state with `z` undecided
/// cells: the node itself, and at most `z` children, each with fewer
/// undecided cells.
pub open spec fn node_bound(z: nat) -> nat
    decreases z,
{
    if z == 0 {
        1
    } else {
        1 + z * node_bound((z - 1) as nat)
    }
}

/// The node bound grows with the undecided cells, from 1.
proof fn lemma_node_bound_mono(a: nat, b: nat)
    requires
        a <= b,
    ensures
        1 <= node_bound(a) <= node_bound(b),
    decreases b,
{
    if b > 0 {
        if a < b {
            lemma_node_bound_mono(a, (b - 1) as nat);
        } else {
            lemma_node_bound_mono((b - 1) as nat, (b - 1) as nat);
        }
        let p = node_bound((b - 1) as nat);
        assert(b * p >= p) by (nonlinear_arith)
            requires
                b >= 1,
                p >= 0,
        ;
    }
}

/// The node bound of nine undecided cells.
proof fn lemma_node_bound_nine()
    ensures
        node_bound(9) == 986410,
{
    assert(node_bound(0) == 1);
    assert(node_bound(1) == 2);
    assert(node_bound(2) == 5);
    assert(node_bound(3) == 16);
    assert(node_bound(4) == 65);
    assert(node_bound(5) == 326);
    assert(node_bound(6) == 1957);
    assert(node_bound(7) == 13700);
    assert(node_bound(8) == 109601);
}

/// The undecided cells of `s`.
pub open spec fn zero_cells(s: Seq<u8>) -> Set<int> {
    Set::new(|i: int| 0 <= i < s.len() && s[i] == 0)
}

/// There are `zeros(s)` undecided cells.
proof fn lemma_zero_cells(s: Seq<u8>)
    ensures
        zero_cells(s).finite(),
        zero_cells(s).len() == zeros(s),
    decreases s.len(),
{
    if s.len() == 0 {
        assert(zero_cells(s) =~= Set::empty());
    } else {
        let d = s.drop_last();
        lemma_zero_cells(d);
        if s.last() == 0 {
            assert(zero_cells(s) =~= zero_cells(d).insert(s.len() - 1));
        } else {
            assert(zero_cells(s) =~= zero_cells(d));
        }
    }
}

/// `f` holds a lamp on one of the first `k` cells of `cands`.
pub open spec fn lamp_before(f: Seq<u8>, cands: Seq<usize>, k: int) -> bool {
    exists|j: int| 0 <= j < k && #[trigger] f[cands[j] as int] == 1
}

/// Every non-white cell of `s` is decided.
pub open spec fn walls_decided(b: &Board, s: Seq<u8>) -> bool {
    forall|i: int| 0 <= i < s.len() && b.cells@[i] != 0 ==> #[trigger] s[i] != 0
}

/// The tally of the solution search: solutions counted (with the ghost list
/// of the solutions found) and whether the node budget ran out.
struct Tally {
    count: u32,
    unknown: bool,
    found: Ghost<Seq<Seq<u8>>>,
}

/// `cands` lists every undecided cell in the reach of the unlit white cell
/// `i`, and only undecided cells.
pub open spec fn covers(b: &Board, s: Seq<u8>, i: int, cands: Seq<usize>) -> bool {
    &&& 0 <= i < s.len()
    &&& b.cells@[i] == 0
    &&& !b.lights(s, i)
    &&& forall|k: int| 0 <= k < b.rch(i).len() && s[#[trigger] b.rch(i)[k] as int] == 0 ==> cands.contains(b.rch(i)[k])
    &&& forall|q: int| 0 <= q < cands.len() ==> #[trigger] cands[q] < s.len() && s[cands[q] as int] == 0
}

/// A solution puts a lamp on one of the cells that cover an unlit white cell.
proof fn lemma_covered_lamp(b: &Board, s: Seq<u8>, i: int, cands: Seq<usize>, t: Seq<u8>)
    requires
        b.wf(),
        s.len() == b.n(),
        covers(b, s, i, cands),
        solves(b, t, s),
    ensures
        exists|j: int| 0 <= j < cands.len() && t[#[trigger] cands[j] as int] == 1,
{
    assert(b.lights(t, i));
    lemma_lights_own_reach(b, t, i);
    lemma_lights_own_reach(b, s, i);
    let k = choose|k: int| 0 <= k < b.rch(i).len() && t[#[trigger] b.rch(i)[k] as int] == 1;
    let j = b.rch(i)[k] as int;
    assert(b.rch(i) == b.beam(i).push(i as usize));
    assert(0 <= j < s.len()) by {
        if k < b.beam(i).len() {
            assert(b.beam(i)[k] == j);
        }
    }
    assert(ext_cell(t[j], s[j]));
    assert(s[b.rch(i)[k] as int] != 1);
    assert(cands.contains(b.rch(i)[k]));
    let q = choose|q: int| 0 <= q < cands.len() && cands[q] == b.rch(i)[k];
    assert(t[cands[q] as int] == 1);
}

/// The undecided cells that could light cell `i` of `s`: itself, then its beam.
pub open spec fn light_cands(b: &Board, s: Seq<u8>, i: int) -> Seq<usize> {
    (if s[i] == 0 { seq![i as usize] } else { Seq::<usize>::empty() }) + zeros_of(s, b.beam(i))
}

/// The cell to branch on in `s`, scanning cells from `i` with the best
/// candidate list `best` so far: `true` at an unlit white cell without
/// candidates (a dead end); otherwise the shortest candidate list of the
/// unlit white cells (the first among equals; a single candidate ends the
/// scan), or none when every white cell is lit.
pub open spec fn select_spec(b: &Board, s: Seq<u8>, i: int, best: Option<Seq<usize>>) -> (bool, Option<Seq<usize>>)
    decreases s.len() - i,
{
    if i < 0 || i >= s.len() {
        (false, best)
    } else if b.cells@[i] != 0 || b.lights(s, i) {
        select_spec(b, s, i + 1, best)
    } else {
        let c = light_cands(b, s, i);
        if c.len() == 0 {
            (true, best)
        } else if best is None || c.len() < best->0.len() {
            if c.len() == 1 {
                (false, Some(c))
            } else {
                select_spec(b, s, i + 1, Some(c))
            }
        } else {
            select_spec(b, s, i + 1, best)
        }
    }
}

/// `s` with the first `k` cells of `cands` forbidden in order: a cell that
/// holds a lamp fails the branch.
pub open spec fn forbid_spec(s: Seq<u8>, cands: Seq<usize>, k: int) -> Option<Seq<u8>>
    decreases k,
{
    if k <= 0 {
        Some(s)
    } else {
        match forbid_spec(s, cands, k - 1) {
            None => None,
            Some(c) => {
                let x = cands[k - 1] as int;
                if c[x] == 0 {
                    Some(c.update(x, 2))
                } else if c[x] == 2 {
                    Some(c)
                } else {
                    None
                }
            },
        }
    }
}

/// `s` with its undecided cells forbidden.
pub open spec fn decide_rest(s: Seq<u8>) -> Seq<u8> {
    Seq::new(s.len(), |x: int| if s[x] == 0 { 2u8 } else { s[x] })
}

/// The solution search below `s` with `nodes` nodes visited, `count`
/// solutions counted and `unknown` telling whether the budget is spent:
/// the same three after it. A node counts itself (past `LIMIT` the budget
/// is spent), propagates, and prunes a contradiction or two lamps in
/// sight; then, at a dead end it stops, with every white cell lit it counts
/// the board (undecided cells forbidden) if it is a solution, and otherwise
/// it branches on the selected candidates. The search stops at `CAP`
/// solutions. (Propagation never adds undecided cells, and a branch always
/// decides one more cell; the guards on these only bound the recursion.)
pub open spec fn dfs_spec(b: &Board, s: Seq<u8>, nodes: int, count: int, unknown: bool) -> (int, int, bool)
    decreases zeros(s), 1int, 0int,
{
    if count >= CAP || unknown {
        (nodes, count, unknown)
    } else if nodes + 1 > LIMIT {
        (nodes + 1, count, true)
    } else {
        let p = propagate_spec(b, s);
        if !p.0 || !b.no_lamp_conflict(p.1) || zeros(p.1) > zeros(s) {
            (nodes + 1, count, unknown)
        } else {
            let sel = select_spec(b, p.1, 0, None);
            if sel.0 {
                (nodes + 1, count, unknown)
            } else {
                match sel.1 {
                    None => (nodes + 1, if b.is_solution_spec(decide_rest(p.1)) { count + 1 } else { count }, unknown),
                    Some(c) => dfs_children(b, p.1, c, 0, nodes + 1, count, unknown),
                }
            }
        }
    }
}

/// The branches of the search on the propagated board `p` from candidate
/// `k` on: candidate `k` gets a lamp and the earlier candidates none, each
/// branch searched in turn until `CAP` solutions or the budget is spent.
pub open spec fn dfs_children(b: &Board, p: Seq<u8>, cands: Seq<usize>, k: int, nodes: int, count: int, unknown: bool) -> (int, int, bool)
    decreases zeros(p), 0int, cands.len() - k,
{
    if k < 0 || k >= cands.len() || count >= CAP || unknown {
        (nodes, count, unknown)
    } else {
        let ck = cands[k] as int;
        if p[ck] != 0 && p[ck] != 1 {
            dfs_children(b, p, cands, k + 1, nodes, count, unknown)
        } else {
            match forbid_spec(p.update(ck, 1), cands, k) {
                None => dfs_children(b, p, cands, k + 1, nodes, count, unknown),
                Some(child) => {
                    if zeros(child) < zeros(p) {
                        let r = dfs_spec(b, child, nodes, count, unknown);
                        dfs_children(b, p, cands, k + 1, r.0, r.1, r.2)
                    } else {
                        dfs_children(b, p, cands, k + 1, nodes, count, unknown)
                    }
                },
            }
        }
    }
}

/// The count reported for the search below `s`.
pub open spec fn count_spec(b: &Board, s: Seq<u8>) -> SolutionCount {
    let r = dfs_spec(b, s, 0, 0, false);
    if r.2 {
        SolutionCount::Unknown
    } else if r.1 == 0 {
        SolutionCount::Empty
    } else if r.1 == 1 {
        SolutionCount::Unique
    } else {
        SolutionCount::Multiple
    }
}

/// Along the search the budget is spent exactly when more than `LIMIT`
/// nodes have been visited, and the node count never passes `LIMIT + 1`.
proof fn lemma_dfs_budget(b: &Board, s: Seq<u8>, nodes: int, count: int, unknown: bool)
    requires
        0 <= nodes <= LIMIT + 1,
        unknown == (nodes > LIMIT),
    ensures
        nodes <= dfs_spec(b, s, nodes, count, unknown).0 <= LIMIT + 1,
        dfs_spec(b, s, nodes, count, unknown).2 == (dfs_spec(b, s, nodes, count, unknown).0 > LIMIT),
    decreases zeros(s), 1int, 0int,
{
    if !(count >= CAP || unknown) && !(nodes + 1 > LIMIT) {
        let p = propagate_spec(b, s);
        if !(!p.0 || !b.no_lamp_conflict(p.1) || zeros(p.1) > zeros(s)) {
            let sel = select_spec(b, p.1, 0, None);
            if !sel.0 {
                match sel.1 {
                    None => {},
                    Some(c) => {
                        lemma_children_budget(b, p.1, c, 0, nodes + 1, count, unknown, zeros(s));
                    },
                }
            }
        }
    }
}

/// The budget law of `lemma_dfs_budget` for the branches of a node.
proof fn lemma_children_budget(b: &Board, p: Seq<u8>, cands: Seq<usize>, k: int, nodes: int, count: int, unknown: bool, z: nat)
    requires
        0 <= nodes <= LIMIT + 1,
        unknown == (nodes > LIMIT),
        zeros(p) <= z,
    ensures
        nodes <= dfs_children(b, p, cands, k, nodes, count, unknown).0 <= LIMIT + 1,
        dfs_children(b, p, cands, k, nodes, count, unknown).2 == (dfs_children(b, p, cands, k, nodes, count, unknown).0 > LIMIT),
    decreases z, 0int, cands.len() - k,
{
    if !(k < 0 || k >= cands.len() || count >= CAP || unknown) {
        let ck = cands[k] as int;
        if p[ck] != 0 && p[ck] != 1 {
            lemma_children_budget(b, p, cands, k + 1, nodes, count, unknown, z);
        } else {
            match forbid_spec(p.update(ck, 1), cands, k) {
                None => {
                    lemma_children_budget(b, p, cands, k + 1, nodes, count, unknown, z);
                },
                Some(child) => {
                    if zeros(child) < zeros(p) {
                        lemma_dfs_budget(b, child, nodes, count, unknown);
                        let r = dfs_spec(b, child, nodes, count, unknown);
                        lemma_children_budget(b, p, cands, k + 1, r.0, r.1, r.2, z);
                    } else {
                        lemma_children_budget(b, p, cands, k + 1, nodes, count, unknown, z);
                    }
                },
            }
        }
    }
}

/// The count is unknown exactly when the search visits more than `LIMIT`
/// nodes: never because of how many cells are undecided alone.
pub proof fn lemma_count_unknown_by_budget(b: &Board, s: Seq<u8>)
    ensures
        (count_spec(b, s) == SolutionCount::Unknown) == (dfs_spec(b, s, 0, 0, false).0 > LIMIT),
        dfs_spec(b, s, 0, 0, false).0 <= LIMIT + 1,
{
    lemma_dfs_budget(b, s, 0, 0, false);
}

/// Lists the undecided cells that could light cell `i`: itself, then its beam.
fn light_candidates(board: &Board, state: &Vec<u8>, i: usize) -> (cands: Vec<usize>)
    requires
        board.wf(),
        state@.len() == board.n(),
        i < board.n(),
        board.cells@[i as int] == 0,
    ensures
        forall|k: int| 0 <= k < board.rch(i as int).len() && state@[#[trigger] board.rch(i as int)[k] as int] == 0 ==> cands@.contains(board.rch(i as int)[k]),
        forall|q: int| 0 <= q < cands@.len() ==> #[trigger] cands@[q] < state@.len() && state@[cands@[q] as int] == 0,
        cands@ == light_cands(board, state@, i as int),
{
    let mut cands: Vec<usize> = Vec::new();
    if state[i] == 0 {
        cands.push(i);
        assert(cands@[0] == i);
    }
    let ghost first = cands@;
    assert(first == (if state@[i as int] == 0 { seq![i] } else { Seq::<usize>::empty() }));
    let lr = &board.lamp_reach[i];
    assert(lr@ == board.beam(i as int));
    assert(board.rch(i as int) == board.beam(i as int).push(i as usize));
    let mut k: usize = 0;
    while k < lr.len()
        invariant
            board.wf(),
            state@.len() == board.n(),
            i < board.n(),
            lr@ == board.beam(i as int),
            board.rch(i as int) == board.beam(i as int).push(i as usize),
            k <= lr@.len(),
            state@[i as int] == 0 ==> cands@.contains(i),
            forall|kk: int| 0 <= kk < k && state@[#[trigger] board.beam(i as int)[kk] as int] == 0 ==> cands@.contains(board.beam(i as int)[kk]),
            forall|q: int| 0 <= q < cands@.len() ==> #[trigger] cands@[q] < state@.len() && state@[cands@[q] as int] == 0,
            first == (if state@[i as int] == 0 { seq![i] } else { Seq::<usize>::empty() }),
            cands@ == first + zeros_of(state@, lr@.take(k as int)),
        decreases lr@.len() - k,
    {
        let c = lr[k];
        assert(board.beam(i as int)[k as int] == c);
        assert(lr@.take(k + 1).drop_last() =~= lr@.take(k as int));
        if state[c] == 0 {
            let ghost before = cands@;
            cands.push(c);
            proof {
                assert(cands@[cands@.len() - 1] == c);
                assert forall|x: usize| before.contains(x) implies cands@.contains(x) by {
                    let q = choose|q: int| 0 <= q < before.len() && before[q] == x;
                    assert(cands@[q] == x);
                }
            }
        }
        k += 1;
    }
    proof {
        assert(lr@.take(k as int) =~= lr@);
        assert forall|kk: int| 0 <= kk < board.rch(i as int).len() && state@[#[trigger] board.rch(i as int)[kk] as int] == 0 implies cands@.contains(board.rch(i as int)[kk]) by {
            if kk < board.beam(i as int).len() {
                assert(board.rch(i as int)[kk] == board.beam(i as int)[kk]);
            } else {
                assert(board.rch(i as int)[kk] == i);
            }
        }
    }
    cands
}

/// The candidate list held, if any.
pub open spec fn best_view(o: Option<Vec<usize>>) -> Option<Seq<usize>> {
    match o {
        Some(v) => Some(v@),
        None => None,
    }
}

/// Depth-first solution count below `state`, stopping at two solutions or
/// when the node budget is spent. Each node propagates beams and numbered
/// walls, prunes contradictions, then branches on the unlit white cell with
/// the fewest possible light sources: branch k puts a lamp on source k and
/// none on the sources before it. A node with every white cell lit is a
/// complete board, counted if it is a solution.
fn count_dfs(board: &Board, state: &[u8], node_count: &mut u64, tally: &mut Tally)
    requires
        board.wf(),
        state@.len() == board.n(),
        valid_state(state@),
        old(tally).count as int == old(tally).found@.len(),
        old(tally).count <= CAP,
        old(tally).found@.no_duplicates(),
        forall|q: int| 0 <= q < old(tally).found@.len() ==> board.is_solution_spec(#[trigger] old(tally).found@[q]),
        forall|q: int| 0 <= q < old(tally).found@.len() ==> !extends(#[trigger] old(tally).found@[q], state@),
        !old(tally).unknown ==> *old(node_count) <= LIMIT,
        *old(node_count) <= LIMIT + 1,
        old(tally).unknown == (*old(node_count) > LIMIT),
    ensures
        *old(node_count) <= *final(node_count) <= LIMIT + 1,
        final(tally).unknown == (*final(node_count) > LIMIT),
        old(tally).count >= CAP || old(tally).unknown ==> *final(node_count) == *old(node_count)
            && final(tally).count == old(tally).count && final(tally).found@ == old(tally).found@,
        final(tally).count as int == final(tally).found@.len(),
        final(tally).count <= CAP,
        final(tally).count >= old(tally).count,
        old(tally).unknown ==> final(tally).unknown,
        !final(tally).unknown ==> *final(node_count) <= LIMIT,
        final(tally).found@.no_duplicates(),
        final(tally).found@.take(old(tally).found@.len() as int) == old(tally).found@,
        forall|q: int| 0 <= q < final(tally).found@.len() ==> board.is_solution_spec(#[trigger] final(tally).found@[q]),
        forall|q: int| old(tally).found@.len() <= q < final(tally).found@.len() ==> extends(#[trigger] final(tally).found@[q], state@),
        walls_decided(board, state@) && !final(tally).unknown && final(tally).count < CAP ==> forall|t: Seq<u8>| #[trigger] solves(board, t, state@) ==> final(tally).found@.contains(t),
        !old(tally).unknown && *old(node_count) + node_bound(zeros(state@)) <= LIMIT ==> !final(tally).unknown
            && *final(node_count) <= *old(node_count) + node_bound(zeros(state@)),
        (*final(node_count) as int, final(tally).count as int, final(tally).unknown) == dfs_spec(
            board,
            state@,
            *old(node_count) as int,
            old(tally).count as int,
            old(tally).unknown,
        ),
    decreases zeros(state@),
{
    let ghost found0 = tally.found@;
    let ghost count0 = tally.count;
    let ghost n0: int = *node_count as int;
    let ghost unknown0: bool = tally.unknown;
    let ghost z: nat = zeros(state@);
    let ghost budget: bool = !tally.unknown && n0 + node_bound(z) <= LIMIT;
    proof {
        lemma_node_bound_mono(0, z);
    }
    if tally.count >= CAP || tally.unknown {
        assert(tally.found@.take(found0.len() as int) =~= found0);
        return;
    }
    *node_count += 1;
    if *node_count > LIMIT {
        tally.unknown = true;
        assert(tally.found@.take(found0.len() as int) =~= found0);
        return;
    }
    let mut propagated = vstd::slice::slice_to_vec(state);
    let ghost s0 = state@;
    if !propagate(board, &mut propagated) {
        assert(tally.found@.take(found0.len() as int) =~= found0);
        return;
    }
    let ghost p0 = propagated@;
    if lamp_conflict(board, propagated.as_slice()) {
        proof {
            assert forall|t: Seq<u8>| !#[trigger] solves(board, t, s0) by {
                if solves(board, t, s0) {
                    assert(solves(board, t, p0));
                    let (i, k) = choose|i: int, k: int| 0 <= i < p0.len() && 0 <= k < board.beam(i).len() && p0[i] == 1 && p0[#[trigger] board.beam(i)[k] as int] == 1;
                    assert(ext_cell(t[i], p0[i]));
                    let c = board.beam(i)[k] as int;
                    assert(ext_cell(t[c], p0[c]));
                    assert(t[board.beam(i)[k] as int] != 1);
                }
            }
        }
        assert(tally.found@.take(found0.len() as int) =~= found0);
        return;
    }
    let lit = board.lit(propagated.as_slice());
    let n = propagated.len();
    let mut best: Option<Vec<usize>> = None;
    let ghost mut best_cell: int = 0;
    let mut i: usize = 0;
    while i < n
        invariant_except_break
            best is None ==> forall|j: int| 0 <= j < i && board.cells@[j] == 0 ==> #[trigger] board.lights(p0, j),
        invariant
            board.wf(),
            n == p0.len() == board.n(),
            propagated@ == p0,
            lit@.len() == n,
            forall|c: int| 0 <= c < n ==> (#[trigger] lit@[c] == 1 <==> board.lights(p0, c)) && (lit@[c] == 0 || lit@[c] == 1),
            i <= n,
            best matches Some(bc) ==> covers(board, p0, best_cell, bc@) && bc@.len() > 0,
            select_spec(board, p0, 0, None) == select_spec(board, p0, i as int, best_view(best)),
        ensures
            i >= n ==> (best is None ==> forall|j: int| 0 <= j < n && board.cells@[j] == 0 ==> #[trigger] board.lights(p0, j)),
            best matches Some(bc) ==> covers(board, p0, best_cell, bc@) && bc@.len() > 0,
            i < n ==> select_spec(board, p0, 0, None).0,
            i >= n ==> select_spec(board, p0, 0, None) == (false, best_view(best)),
            i < n ==> exists|j: int| 0 <= j < n && #[trigger] board.cells@[j] == 0 && !board.lights(p0, j) && (forall|k: int| 0 <= k < board.rch(j).len() ==> p0[#[trigger] board.rch(j)[k] as int] != 0),
        decreases n - i,
    {
        if board.cells[i] != 0 {
            i += 1;
            continue;
        }
        if lit[i] != 0 {
            i += 1;
            continue;
        }
        let cands = light_candidates(board, &propagated, i);
        let ghost old_best = best_view(best);
        if cands.len() == 0 {
            proof {
                assert forall|k: int| 0 <= k < board.rch(i as int).len() implies p0[#[trigger] board.rch(i as int)[k] as int] != 0 by {
                    if p0[board.rch(i as int)[k] as int] == 0 {
                        assert(cands@.contains(board.rch(i as int)[k]));
                    }
                }
                assert(!board.lights(p0, i as int));
            }
            break;
        }
        let replace = match &best {
            None => true,
            Some(bv) => cands.len() < bv.len(),
        };
        if replace {
            let is_single = cands.len() == 1;
            best = Some(cands);
            proof {
                best_cell = i as int;
            }
            if is_single {
                i = n;
                break;
            }
        }
        i += 1;
    }
    if i < n {
        // An unlit white cell without any possible light source: dead end.
        proof {
            let j = choose|j: int| 0 <= j < n && #[trigger] board.cells@[j] == 0 && !board.lights(p0, j) && (forall|k: int| 0 <= k < board.rch(j).len() ==> p0[#[trigger] board.rch(j)[k] as int] != 0);
            assert forall|t: Seq<u8>| !#[trigger] solves(board, t, s0) by {
                if solves(board, t, s0) {
                    assert(solves(board, t, p0));
                    assert(covers(board, p0, j, Seq::empty()));
                    lemma_covered_lamp(board, p0, j, Seq::empty(), t);
                }
            }
        }
        assert(tally.found@.take(found0.len() as int) =~= found0);
        return;
    }
    proof {
        lemma_refines_zeros(p0, s0);
        assert(dfs_spec(board, s0, n0, count0 as int, unknown0) == match select_spec(board, p0, 0, None).1 {
            None => (n0 + 1, if board.is_solution_spec(decide_rest(p0)) { count0 + 1 } else { count0 as int }, unknown0),
            Some(c) => dfs_children(board, p0, c, 0, n0 + 1, count0 as int, unknown0),
        });
    }
    match best {
        None => {
            let mut decided = propagated.clone();
            assert(decided@ =~= p0);
            let mut x: usize = 0;
            while x < n
                invariant
                    n == decided@.len() == p0.len(),
                    x <= n,
                    forall|y: int| 0 <= y < x ==> #[trigger] decided@[y] == (if p0[y] == 0 { 2u8 } else { p0[y] }),
                    forall|y: int| x <= y < n ==> #[trigger] decided@[y] == p0[y],
                decreases n - x,
            {
                if decided[x] == 0 {
                    decided.set(x, 2);
                }
                x += 1;
            }
            let ghost dv = decided@;
            assert(dv =~= decide_rest(p0));
            proof {
                assert(extends(dv, p0)) by {
                    assert forall|y: int| 0 <= y < p0.len() implies ext_cell(dv[y], p0[y]) by {
                        assert(p0[y] <= 2);
                    }
                }
                lemma_extends_refines(dv, p0, s0);
            }
            if is_solution(board, decided.as_slice()) {
                proof {
                    assert(!found0.contains(dv)) by {
                        if found0.contains(dv) {
                            let q = choose|q: int| 0 <= q < found0.len() && found0[q] == dv;
                            assert(!extends(found0[q], s0));
                        }
                    }
                }
                tally.count += 1;
                tally.found = Ghost(tally.found@.push(dv));
                proof {
                    assert(tally.found@.take(found0.len() as int) =~= found0);
                    assert forall|q: int| 0 <= q < tally.found@.len() implies board.is_solution_spec(#[trigger] tally.found@[q]) by {
                        if q < found0.len() {
                            assert(tally.found@[q] == found0[q]);
                        }
                    }
                }
            }
            proof {
                assert(tally.count >= count0);
                assert(tally.found@.take(found0.len() as int) =~= found0);
                if walls_decided(board, s0) {
                    assert forall|t: Seq<u8>| #[trigger] solves(board, t, s0) implies tally.found@.contains(t) by {
                        assert(solves(board, t, p0));
                        assert forall|y: int| 0 <= y < p0.len() implies #[trigger] p0[y] != 0 by {
                            assert(crate::rules::ref_cell(p0[y], s0[y]));
                            if board.cells@[y] == 0 {
                                assert(board.lights(p0, y));
                                let (j, k) = choose|j: int, k: int| 0 <= j < p0.len() && 0 <= k < board.rch(j).len() && p0[j] == 1 && #[trigger] board.rch(j)[k] == y;
                                if board.cells@[j] != 0 {
                                    assert(board.rch(j).len() == 0);
                                }
                                assert(board.rch(j) == board.beam(j).push(j as usize));
                                if k < board.beam(j).len() {
                                    assert(board.beam(j)[k] == y);
                                    assert(p0[board.beam(j)[k] as int] != 0);
                                } else {
                                    assert(board.rch(j)[k] == j);
                                }
                            }
                        }
                        lemma_extends_decided(t, p0);
                        assert(dv =~= p0);
                        assert(tally.found@[tally.found@.len() - 1] == dv);
                    }
                }
            }
        },
        Some(cands) => {
            let ghost bc = best_cell;
            let mut k: usize = 0;
            let ghost mut rset: Set<int> = Set::empty();
            proof {
                lemma_refines_zeros(p0, s0);
            }
            while k < cands.len()
                invariant_except_break
                    forall|q: int| found0.len() <= q < tally.found@.len() ==> lamp_before(#[trigger] tally.found@[q], cands@, k as int),
                invariant
                    board.wf(),
                    s0 == state@,
                    n == p0.len() == s0.len() == board.n(),
                    propagated@ == p0,
                    valid_state(p0),
                    keeps_solutions(board, s0, p0),
                    refines(p0, s0),
                    zeros(p0) <= zeros(s0),
                    covers(board, p0, bc, cands@),
                    k <= cands@.len(),
                    tally.count as int == tally.found@.len(),
                    tally.count <= CAP,
                    tally.found@.no_duplicates(),
                    found0.len() <= tally.found@.len(),
                    tally.found@.take(found0.len() as int) == found0,
                    forall|q: int| 0 <= q < tally.found@.len() ==> board.is_solution_spec(#[trigger] tally.found@[q]),
                    forall|q: int| found0.len() <= q < tally.found@.len() ==> extends(#[trigger] tally.found@[q], s0),
                    forall|q: int| 0 <= q < found0.len() ==> !extends(#[trigger] found0[q], s0),
                    !tally.unknown ==> *node_count <= LIMIT,
                    walls_decided(board, s0) && !tally.unknown && tally.count < CAP ==> forall|t: Seq<u8>| #[trigger] solves(board, t, p0) && (exists|j: int| 0 <= j < k && t[#[trigger] cands@[j] as int] == 1) ==> tally.found@.contains(t),
                    dfs_spec(board, s0, n0, count0 as int, unknown0) == dfs_children(board, p0, cands@, k as int, *node_count as int, tally.count as int, tally.unknown),
                    n0 < *node_count <= LIMIT + 1,
                    tally.unknown == (*node_count > LIMIT),
                    k <= cands@.len(),
                    z == zeros(s0),
                    budget ==> n0 + node_bound(z) <= LIMIT,
                    rset.finite(),
                    rset.subset_of(zero_cells(p0)),
                    forall|y: int| #[trigger] rset.contains(y) ==> exists|j: int| 0 <= j < k && cands@[j] == y,
                    budget ==> !tally.unknown && *node_count <= n0 + 1 + rset.len() * node_bound((z - 1) as nat),
                ensures
                    !tally.unknown && tally.count < CAP ==> k == cands@.len(),
                decreases cands@.len() - k,
            {
                if tally.count >= CAP || tally.unknown {
                    break;
                }
                let ck = cands[k];
                let mut child = propagated.clone();
                assert(child@ =~= p0);
                if child[ck] == 0 {
                    child.set(ck, 1);
                } else if child[ck] == 1 {
                } else {
                    proof {
                        assert forall|q: int| found0.len() <= q < tally.found@.len() implies lamp_before(#[trigger] tally.found@[q], cands@, k + 1) by {
                            let jj = choose|jj: int| 0 <= jj < k && #[trigger] tally.found@[q][cands@[jj] as int] == 1;
                            assert(tally.found@[q][cands@[jj] as int] == 1);
                        }
                        if walls_decided(board, s0) && !tally.unknown && tally.count < CAP {
                            assert forall|t: Seq<u8>| #[trigger] solves(board, t, p0) && (exists|jj: int| 0 <= jj < k + 1 && t[#[trigger] cands@[jj] as int] == 1) implies tally.found@.contains(t) by {
                                if !(exists|jj: int| 0 <= jj < k && t[#[trigger] cands@[jj] as int] == 1) {
                                    assert(t[cands@[k as int] as int] == 1);
                                }
                            }
                        }
                    }
                    k += 1;
                    continue;
                }
                let ok = forbid_earlier(&mut child, &cands, k, Ghost(p0));
                if !ok {
                    proof {
                        if walls_decided(board, s0) && !tally.unknown && tally.count < CAP {
                            assert forall|t: Seq<u8>| #[trigger] solves(board, t, p0) && (exists|jj: int| 0 <= jj < k + 1 && t[#[trigger] cands@[jj] as int] == 1) implies tally.found@.contains(t) by {
                                if !(exists|jj: int| 0 <= jj < k && t[#[trigger] cands@[jj] as int] == 1) {
                                    let jj = choose|jj: int| 0 <= jj < k && #[trigger] cands@[jj] == ck;
                                    assert(t[cands@[jj] as int] != 1);
                                }
                            }
                        }
                        assert forall|q: int| found0.len() <= q < tally.found@.len() implies lamp_before(#[trigger] tally.found@[q], cands@, k + 1) by {
                            let jj = choose|jj: int| 0 <= jj < k && #[trigger] tally.found@[q][cands@[jj] as int] == 1;
                            assert(tally.found@[q][cands@[jj] as int] == 1);
                        }
                    }
                    k += 1;
                    continue;
                }
                let ghost cv = child@;
                let ghost f1 = tally.found@;
                let ghost unknown1 = tally.unknown;
                let ghost count1 = tally.count;
                proof {
                    assert(refines(cv, p0)) by {
                        assert forall|y: int| 0 <= y < p0.len() implies crate::rules::ref_cell(cv[y], p0[y]) by {
                            if cv[y] != p0[y] {
                                assert(p0[y] == 0);
                                if y != ck {
                                    let jj = choose|jj: int| 0 <= jj < k && cands@[jj] == y;
                                    assert(cv[cands@[jj] as int] == 2);
                                }
                            }
                        }
                    }
                    lemma_refines_trans(cv, p0, s0);
                    assert(cv != p0) by {
                        assert(cv[ck as int] != p0[ck as int]);
                    }
                    lemma_refines_zeros(cv, p0);
                    assert(valid_state(cv)) by {
                        assert forall|y: int| 0 <= y < cv.len() implies #[trigger] cv[y] <= 2 by {
                            assert(crate::rules::ref_cell(cv[y], p0[y]));
                        }
                    }
                    assert forall|q: int| 0 <= q < f1.len() implies !extends(#[trigger] f1[q], cv) by {
                        if extends(f1[q], cv) {
                            lemma_extends_refines(f1[q], cv, s0);
                            if q < found0.len() {
                                assert(f1.take(found0.len() as int)[q] == f1[q]);
                                assert(!extends(found0[q], s0));
                            } else {
                                assert(lamp_before(f1[q], cands@, k as int));
                                let jj = choose|jj: int| 0 <= jj < k && #[trigger] f1[q][cands@[jj] as int] == 1;
                                assert(cv[cands@[jj] as int] == 2);
                                assert(ext_cell(f1[q][cands@[jj] as int], cv[cands@[jj] as int]));
                            }
                        }
                    }
                }
                let ghost nodes1: int = *node_count as int;
                proof {
                    if budget {
                        assert(!rset.contains(ck as int)) by {
                            if rset.contains(ck as int) {
                                let jj = choose|jj: int| 0 <= jj < k && cands@[jj] == ck as int;
                                assert(cv[cands@[jj] as int] == 2);
                            }
                        }
                        lemma_zero_cells(p0);
                        assert(rset.insert(ck as int).subset_of(zero_cells(p0)));
                        vstd::set_lib::lemma_len_subset(rset.insert(ck as int), zero_cells(p0));
                        lemma_node_bound_mono(zeros(cv), (z - 1) as nat);
                        let nb: nat = node_bound((z - 1) as nat);
                        let rl: nat = rset.len();
                        assert((rl + 1) * nb <= z * nb) by (nonlinear_arith)
                            requires
                                rl + 1 <= z,
                        ;
                        assert((rl + 1) * nb == rl * nb + nb) by (nonlinear_arith);
                        assert(node_bound(z) == 1 + z * nb);
                    }
                }
                count_dfs(board, child.as_slice(), node_count, tally);
                proof {
                    if budget {
                        let nb: nat = node_bound((z - 1) as nat);
                        let rl: nat = rset.len();
                        assert((rl + 1) * nb == rl * nb + nb) by (nonlinear_arith);
                        assert(rset.insert(ck as int).len() == rl + 1);
                    }
                    assert forall|y: int| #[trigger] rset.insert(ck as int).contains(y) implies exists|j: int| 0 <= j < k + 1 && cands@[j] == y by {
                        if y != ck as int {
                            let jj = choose|jj: int| 0 <= jj < k && cands@[jj] == y;
                            assert(0 <= jj < k + 1 && cands@[jj] == y);
                        } else {
                            assert(cands@[k as int] == y);
                        }
                    }
                    rset = rset.insert(ck as int);
                }
                proof {
                    let f2 = tally.found@;
                    assert(f2.take(found0.len() as int) =~= found0) by {
                        assert(f2.take(f1.len() as int) == f1);
                        assert forall|q: int| 0 <= q < found0.len() implies f2.take(found0.len() as int)[q] == found0[q] by {
                            assert(f2[q] == f2.take(f1.len() as int)[q]);
                            assert(f1[q] == f1.take(found0.len() as int)[q]);
                        }
                    }
                    assert forall|q: int| found0.len() <= q < f2.len() implies extends(#[trigger] f2[q], s0) by {
                        if q < f1.len() {
                            assert(f2[q] == f2.take(f1.len() as int)[q]);
                        } else {
                            lemma_extends_refines(f2[q], cv, s0);
                        }
                    }
                    assert forall|q: int| found0.len() <= q < f2.len() implies lamp_before(#[trigger] f2[q], cands@, k + 1) by {
                        if q < f1.len() {
                            assert(f2[q] == f2.take(f1.len() as int)[q]);
                            assert(lamp_before(f1[q], cands@, k as int));
                            let jj = choose|jj: int| 0 <= jj < k && #[trigger] f1[q][cands@[jj] as int] == 1;
                            assert(f2[q][cands@[jj] as int] == 1);
                        } else {
                            assert(extends(f2[q], cv));
                            assert(ext_cell(f2[q][ck as int], cv[ck as int]));
                            assert(f2[q][cands@[k as int] as int] == 1);
                        }
                    }
                    if walls_decided(board, s0) && !tally.unknown && tally.count < CAP {
                        assert(!unknown1 && count1 < CAP);
                        assert(walls_decided(board, cv)) by {
                            assert forall|y: int| 0 <= y < cv.len() && board.cells@[y] != 0 implies #[trigger] cv[y] != 0 by {
                                assert(crate::rules::ref_cell(cv[y], s0[y]));
                            }
                        }
                        assert forall|t: Seq<u8>| #[trigger] solves(board, t, p0) && (exists|jj: int| 0 <= jj < k + 1 && t[#[trigger] cands@[jj] as int] == 1) implies f2.contains(t) by {
                            if exists|jj: int| 0 <= jj < k && t[#[trigger] cands@[jj] as int] == 1 {
                                assert(solves(board, t, p0));
                                assert(f1.contains(t));
                                let q = choose|q: int| 0 <= q < f1.len() && f1[q] == t;
                                assert(f2[q] == f2.take(f1.len() as int)[q]);
                            } else {
                                assert(t[cands@[k as int] as int] == 1);
                                assert(extends(t, cv)) by {
                                    assert forall|y: int| 0 <= y < cv.len() implies ext_cell(t[y], cv[y]) by {
                                        assert(ext_cell(t[y], p0[y]));
                                        if cv[y] != p0[y] {
                                            if y != ck {
                                                let jj = choose|jj: int| 0 <= jj < k && cands@[jj] == y;
                                                assert(t[cands@[jj] as int] != 1);
                                                assert(cv[cands@[jj] as int] == 2);
                                            }
                                        }
                                    }
                                }
                                assert(solves(board, t, cv));
                            }
                        }
                    }
                }
                k += 1;
            }
            proof {
                if budget {
                    lemma_zero_cells(p0);
                    vstd::set_lib::lemma_len_subset(rset, zero_cells(p0));
                    let nb: nat = node_bound((z - 1) as nat);
                    let rl: nat = rset.len();
                    assert(rl <= zeros(p0));
                    if rl > 0 {
                        assert(rl * nb <= z * nb) by (nonlinear_arith)
                            requires
                                rl <= z,
                        ;
                        assert(node_bound(z) == 1 + z * nb);
                    } else {
                        assert(rl * nb == 0) by (nonlinear_arith)
                            requires
                                rl == 0,
                        ;
                    }
                    assert(*node_count <= n0 + node_bound(z));
                }
                if walls_decided(board, s0) && !tally.unknown && tally.count < CAP {
                    assert(k == cands@.len());
                    assert forall|t: Seq<u8>| #[trigger] solves(board, t, s0) implies tally.found@.contains(t) by {
                        assert(solves(board, t, p0));
                        lemma_covered_lamp(board, p0, bc, cands@, t);
                    }
                }
            }
        },
    }
}

/// Counts the solutions that agree with `state` by the search of
/// `count_spec`: none, one, two or more, or unknown when the search needs
/// more than `LIMIT` nodes, which it never does within `node_bound` of the
/// undecided cells (so never with at most 9).
#[verifier::spinoff_prover]
pub fn count(board: &Board, state: &[u8]) -> (r: SolutionCount)
    requires
        board.wf(),
        state@.len() == board.n(),
        valid_state(state@),
    ensures
        r == SolutionCount::Multiple ==> exists|t1: Seq<u8>, t2: Seq<u8>| t1 != t2 && solves(board, t1, state@) && solves(board, t2, state@),
        r == SolutionCount::Unique ==> exists|t: Seq<u8>| #[trigger] solves(board, t, state@) && (walls_decided(board, state@) ==> forall|t2: Seq<u8>| #[trigger] solves(board, t2, state@) ==> t2 == t),
        r == SolutionCount::Empty ==> (walls_decided(board, state@) ==> unsolvable(board, state@)),
        node_bound(zeros(state@)) <= LIMIT ==> r != SolutionCount::Unknown,
        zeros(state@) <= 9 ==> r != SolutionCount::Unknown,
        (r == SolutionCount::Unknown) == (dfs_spec(board, state@, 0, 0, false).0 > LIMIT),
        r == count_spec(board, state@),
{
    proof {
        lemma_count_unknown_by_budget(board, state@);
    }
    let mut tally = Tally { count: 0, unknown: false, found: Ghost(Seq::empty()) };
    let mut node_count: u64 = 0;
    count_dfs(board, state, &mut node_count, &mut tally);
    assert(zeros(state@) <= 9 ==> node_bound(zeros(state@)) <= LIMIT) by {
        if zeros(state@) <= 9 {
            lemma_node_bound_mono(zeros(state@), 9);
            lemma_node_bound_nine();
        }
    }
    if tally.unknown {
        return SolutionCount::Unknown;
    }
    let ghost f = tally.found@;
    if tally.count == 0 {
        proof {
            if walls_decided(board, state@) {
                assert forall|t: Seq<u8>| !#[trigger] solves(board, t, state@) by {
                    if solves(board, t, state@) {
                        assert(f.contains(t));
                    }
                }
            }
        }
        SolutionCount::Empty
    } else if tally.count == 1 {
        proof {
            assert(solves(board, f[0], state@));
            if walls_decided(board, state@) {
                assert forall|t2: Seq<u8>| #[trigger] solves(board, t2, state@) implies t2 == f[0] by {
                    assert(f.contains(t2));
                }
            }
        }
        SolutionCount::Unique
    } else {
        proof {
            assert(solves(board, f[0], state@));
            assert(solves(board, f[1], state@));
            assert(f[0] != f[1]);
        }
        SolutionCount::Multiple
    }
}


/// Forbids lamps on the light sources before position `k` in a branch that
/// puts a lamp on source `k`; fails when one of them already holds a lamp.
fn forbid_earlier(child: &mut Vec<u8>, cands: &Vec<usize>, k: usize, Ghost(p0): Ghost<Seq<u8>>) -> (ok: bool)
    requires
        old(child)@.len() == p0.len(),
        k < cands@.len(),
        forall|q: int| 0 <= q < cands@.len() ==> #[trigger] cands@[q] < p0.len() && p0[cands@[q] as int] == 0,
        old(child)@[cands@[k as int] as int] == 1,
        forall|y: int| 0 <= y < p0.len() && #[trigger] old(child)@[y] != p0[y] ==> y == cands@[k as int],
    ensures
        final(child)@.len() == p0.len(),
        ok ==> final(child)@[cands@[k as int] as int] == 1,
        ok ==> forall|jj: int| 0 <= jj < k ==> final(child)@[#[trigger] cands@[jj] as int] == 2,
        ok ==> forall|y: int| 0 <= y < p0.len() && #[trigger] final(child)@[y] != p0[y] ==> (y == cands@[k as int] || exists|jj: int| 0 <= jj < k && cands@[jj] == y),
        ok ==> forall|y: int| 0 <= y < p0.len() && #[trigger] final(child)@[y] != p0[y] ==> p0[y] == 0,
        !ok ==> exists|jj: int| 0 <= jj < k && #[trigger] cands@[jj] == cands@[k as int],
        ok == forbid_spec(old(child)@, cands@, k as int) is Some,
        ok ==> Some(final(child)@) == forbid_spec(old(child)@, cands@, k as int),
{
    let n = child.len();
    let ck = cands[k];
    let ghost c0 = child@;
    let mut j: usize = 0;
    while j < k
        invariant
            c0 == old(child)@,
            forbid_spec(c0, cands@, j as int) == Some(child@),
            n == child@.len() == p0.len(),
            k < cands@.len(),
            j <= k,
            forall|q: int| 0 <= q < cands@.len() ==> #[trigger] cands@[q] < n && p0[cands@[q] as int] == 0,
            ck == cands@[k as int],
            child@[ck as int] == 1,
            forall|jj: int| 0 <= jj < j ==> child@[#[trigger] cands@[jj] as int] == 2,
            forall|y: int| 0 <= y < n && #[trigger] child@[y] != p0[y] ==> (y == ck || exists|jj: int| 0 <= jj < j && cands@[jj] == y),
            forall|y: int| 0 <= y < n && #[trigger] child@[y] != p0[y] ==> p0[y] == 0,
        decreases k - j,
    {
        let c = cands[j];
        if child[c] == 0 {
            child.set(c, 2);
        } else if child[c] == 2 {
        } else {
            proof {
                assert(child@[c as int] == 1);
                if c != ck {
                    assert(child@[c as int] != p0[c as int]);
                    let jj = choose|jj: int| 0 <= jj < j && cands@[jj] == c;
                    assert(child@[cands@[jj] as int] == 2);
                }
                lemma_forbid_none(c0, cands@, j + 1, k as int);
            }
            return false;
        }
        j += 1;
    }
    true
}

/// A failed forbidding stays failed.
proof fn lemma_forbid_none(s: Seq<u8>, cands: Seq<usize>, j: int, k: int)
    requires
        0 <= j <= k,
        forbid_spec(s, cands, j) is None,
    ensures
        forbid_spec(s, cands, k) is None,
    decreases k - j,
{
    if j < k {
        lemma_forbid_none(s, cands, j, k - 1);
    }
}

} // verus!
