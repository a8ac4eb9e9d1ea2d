use vstd::prelude::*;

use crate::answer_methods::{Methods, Technique};
use crate::answer_model::Model;
use crate::board::{count_of, Board};
use crate::rules::{
    ext_cell, extends, forced, keeps_solutions, lemma_changed_to_refl,
    lemma_keeps_refl, lemma_lights_own_reach, lemma_refines_refl,
    lemma_refines_zeros, lemma_set_forced, progress_outcome, refines, solves, sound_outcome,
};
use crate::techniques::Status;

verus! {

/// A lamp tried on `x` would light cell `c` (the cell itself or its beam).
pub open spec fn trial_lights(b: &Board, x: int, c: int) -> bool {
    c == x || b.beam(x).contains(c as usize)
}

/// The neighbours in `nb` that would hold a lamp with a lamp tried on `x`.
pub open spec fn trial_placed(s: Seq<u8>, nb: Seq<usize>, x: int) -> nat
    decreases nb.len(),
{
    if nb.len() == 0 {
        0
    } else {
        let c = nb.last() as int;
        trial_placed(s, nb.drop_last(), x) + (if c == x || s[c] == 1 { 1nat } else { 0nat })
    }
}

/// The neighbours in `nb` that could still take a lamp with a lamp tried on
/// `x`: undecided and not lit by it.
pub open spec fn trial_open(b: &Board, s: Seq<u8>, nb: Seq<usize>, x: int) -> nat
    decreases nb.len(),
{
    if nb.len() == 0 {
        0
    } else {
        let c = nb.last() as int;
        trial_open(b, s, nb.drop_last(), x) + (if !(c == x || s[c] == 1) && s[c] == 0 && !trial_lights(b, x, c) {
            1nat
        } else {
            0nat
        })
    }
}

/// With a lamp tried on `x`, numbered wall `k` would get too many lamps or
/// could no longer get enough.
pub open spec fn short_at(b: &Board, s: Seq<u8>, x: int, k: int) -> bool {
    let nb = b.nbrs(b.wall_cell(k));
    let d = b.wall_digit(k) as int;
    !(trial_placed(s, nb, x) <= d && d <= trial_placed(s, nb, x) + trial_open(b, s, nb, x))
}

/// A lamp on `x` would make some numbered wall unsatisfiable.
pub open spec fn would_make_short(b: &Board, s: Seq<u8>, x: int) -> bool {
    exists|k: int| 0 <= k < b.walls@.len() && #[trigger] short_at(b, s, x, k)
}

/// With a lamp tried on `x`, the unlit white cell `w` outside its light
/// would have no undecided cell left in its reach that it does not light.
pub open spec fn dark_at(b: &Board, s: Seq<u8>, x: int, w: int) -> bool {
    &&& b.cells@[w] == 0
    &&& !b.lights(s, w)
    &&& !trial_lights(b, x, w)
    &&& forall|k: int| 0 <= k < b.rch(w).len() ==> !(s[#[trigger] b.rch(w)[k] as int] == 0 && !trial_lights(b, x, b.rch(w)[k] as int))
}

/// A lamp on `x` would leave some white cell impossible to light.
pub open spec fn would_create_unlit(b: &Board, s: Seq<u8>, x: int) -> bool {
    exists|w: int| 0 <= w < s.len() && #[trigger] dark_at(b, s, x, w)
}

/// Undecided cell `x` is forbidden by the trial: a lamp there breaks a wall
/// or leaves a cell dark.
pub open spec fn breaks_at(b: &Board, s: Seq<u8>, x: int) -> bool {
    s[x] == 0 && (would_make_short(b, s, x) || would_create_unlit(b, s, x))
}

/// `s` with every cell forbidden by the trial set to 2.
pub open spec fn breaks_result(b: &Board, s: Seq<u8>) -> Seq<u8> {
    Seq::new(s.len(), |x: int| if breaks_at(b, s, x) { 2u8 } else { s[x] })
}

/// The number of cells below `m` forbidden because a wall would break.
pub open spec fn short_count(b: &Board, s: Seq<u8>, m: int) -> nat
    decreases m,
{
    if m <= 0 {
        0
    } else {
        short_count(b, s, m - 1) + (if s[m - 1] == 0 && would_make_short(b, s, m - 1) { 1nat } else { 0nat })
    }
}

/// The number of cells below `m` forbidden because a cell would stay dark
/// (and no wall would break).
pub open spec fn dark_count(b: &Board, s: Seq<u8>, m: int) -> nat
    decreases m,
{
    if m <= 0 {
        0
    } else {
        dark_count(b, s, m - 1) + (if s[m - 1] == 0 && !would_make_short(b, s, m - 1) && would_create_unlit(b, s, m - 1) {
            1nat
        } else {
            0nat
        })
    }
}

/// The number of entries of `l` recorded with technique `t`.
pub open spec fn tech_count(l: Seq<(usize, Technique)>, t: Technique) -> nat
    decreases l.len(),
{
    if l.len() == 0 {
        0
    } else {
        tech_count(l.drop_last(), t) + (if l.last().1 == t { 1nat } else { 0nat })
    }
}

/// How a solution with a lamp on `x` counts lamps and open cells around a wall.
proof fn lemma_trial_counts(b: &Board, t: Seq<u8>, s: Seq<u8>, nb: Seq<usize>, x: int)
    requires
        b.wf(),
        s.len() == b.n(),
        extends(t, s),
        b.no_lamp_conflict(t),
        0 <= x < s.len(),
        s[x] == 0,
        t[x] == 1,
        forall|k: int| 0 <= k < nb.len() ==> #[trigger] nb[k] < s.len(),
    ensures
        trial_placed(s, nb, x) <= count_of(t, nb, 1) <= trial_placed(s, nb, x) + trial_open(b, s, nb, x),
    decreases nb.len(),
{
    if nb.len() > 0 {
        let p = nb.drop_last();
        assert forall|k: int| 0 <= k < p.len() implies #[trigger] p[k] < s.len() by {
            assert(nb[k] < s.len());
        }
        lemma_trial_counts(b, t, s, p, x);
        let c = nb.last() as int;
        assert(nb[nb.len() - 1] < s.len());
        assert(ext_cell(t[c], s[c]));
        if c != x && s[c] == 0 && trial_lights(b, x, c) {
            let m = choose|m: int| 0 <= m < b.beam(x).len() && b.beam(x)[m] == c as usize;
            assert(t[b.beam(x)[m] as int] != 1);
        }
    }
}

/// A cell that the trial forbids holds no lamp in any solution.
proof fn lemma_breaks_forced(b: &Board, s: Seq<u8>, x: int)
    requires
        b.wf(),
        s.len() == b.n(),
        0 <= x < s.len(),
        breaks_at(b, s, x),
    ensures
        forced(b, s, x, 2),
{
    assert forall|t: Seq<u8>| #[trigger] solves(b, t, s) implies t[x] == 2 by {
        assert(ext_cell(t[x], s[x]));
        if t[x] == 1 {
            if would_make_short(b, s, x) {
                let k = choose|k: int| 0 <= k < b.walls@.len() && #[trigger] short_at(b, s, x, k);
                let nb = b.nbrs(b.wall_cell(k));
                assert(0 <= b.wall_cell(k) < b.n());
                assert forall|q: int| 0 <= q < nb.len() implies #[trigger] nb[q] < s.len() by {}
                lemma_trial_counts(b, t, s, nb, x);
                assert(count_of(t, b.nbrs(b.wall_cell(k)), 1) == b.wall_digit(k));
            } else {
                let w = choose|w: int| 0 <= w < s.len() && #[trigger] dark_at(b, s, x, w);
                assert(b.lights(t, w));
                lemma_lights_own_reach(b, t, w);
                let k = choose|k: int| 0 <= k < b.rch(w).len() && t[#[trigger] b.rch(w)[k] as int] == 1;
                let c = b.rch(w)[k] as int;
                assert(b.rch(w) == b.beam(w).push(w as usize));
                assert(0 <= c < s.len()) by {
                    if k < b.beam(w).len() {
                        assert(b.beam(w)[k] == c);
                    }
                }
                assert(ext_cell(t[c], s[c]));
                if s[c] == 1 {
                    lemma_lights_own_reach(b, s, w);
                    assert(s[b.rch(w)[k] as int] == 1);
                }
                assert(s[c] == 0);
                assert(trial_lights(b, x, c));
                if c == x {
                    if k == b.beam(w).len() {
                        assert(b.rch(w)[k] == w);
                        assert(w == x);
                    } else {
                        assert(b.beam(w)[k] == x);
                        assert(b.beam(x).contains(w as usize));
                    }
                } else {
                    let m = choose|m: int| 0 <= m < b.beam(x).len() && b.beam(x)[m] == c as usize;
                    assert(t[b.beam(x)[m] as int] != 1);
                }
            }
        }
    }
}

/// The cells a lamp tried on `x` would light.
fn trial_light_map(board: &Board, n: usize, x: usize) -> (tl: Vec<u8>)
    requires
        board.wf(),
        n == board.n(),
        x < n,
    ensures
        tl@.len() == n,
        forall|c: int| 0 <= c < n ==> (#[trigger] tl@[c] == 1 <==> trial_lights(board, x as int, c)) && (tl@[c] == 0 || tl@[c] == 1),
{
    let mut tl = vec![0u8; n];
    tl.set(x, 1);
    let lr = &board.lamp_reach[x];
    assert(lr@ == board.beam(x as int));
    let mut k: usize = 0;
    while k < lr.len()
        invariant
            board.wf(),
            n == board.n(),
            x < n,
            lr@ == board.beam(x as int),
            k <= lr@.len(),
            tl@.len() == n,
            forall|c: int| 0 <= c < n ==> (#[trigger] tl@[c] == 1 <==> (c == x || lr@.take(k as int).contains(c as usize))) && (tl@[c] == 0 || tl@[c] == 1),
        decreases lr@.len() - k,
    {
        let c = lr[k];
        assert(board.beam(x as int)[k as int] == c);
        tl.set(c, 1);
        proof {
            assert forall|cc: int| 0 <= cc < n implies (#[trigger] lr@.take(k + 1).contains(cc as usize) <==> (lr@.take(k as int).contains(cc as usize) || cc == c)) by {
                if lr@.take(k + 1).contains(cc as usize) {
                    let m = choose|m: int| 0 <= m < k + 1 && #[trigger] lr@.take(k + 1)[m] == cc as usize;
                    if m < k {
                        assert(lr@.take(k as int)[m] == cc as usize);
                    }
                }
                if lr@.take(k as int).contains(cc as usize) {
                    let m = choose|m: int| 0 <= m < k && #[trigger] lr@.take(k as int)[m] == cc as usize;
                    assert(lr@.take(k + 1)[m] == cc as usize);
                }
                if cc == c {
                    assert(lr@.take(k + 1)[k as int] == c);
                }
            }
        }
        k += 1;
    }
    assert(lr@.take(k as int) =~= lr@);
    tl
}

/// Whether a lamp on `x` would break numbered wall at `cell` with clue `digit`.
fn trial_wall_ok(board: &Board, state: &[u8], tl: &Vec<u8>, x: usize, cell: usize) -> (r: (u32, u32))
    requires
        board.wf(),
        state@.len() == board.n(),
        tl@.len() == board.n(),
        x < board.n(),
        cell < board.n(),
        forall|c: int| 0 <= c < board.n() ==> (#[trigger] tl@[c] == 1 <==> trial_lights(board, x as int, c)) && (tl@[c] == 0 || tl@[c] == 1),
    ensures
        r.0 + r.1 <= 4,
        r.0 == trial_placed(state@, board.nbrs(cell as int), x as int),
        r.1 == trial_open(board, state@, board.nbrs(cell as int), x as int),
{
    let nb = &board.neighbors[cell];
    assert(nb@ == board.nbrs(cell as int));
    let mut placed: u32 = 0;
    let mut open: u32 = 0;
    let mut k: usize = 0;
    while k < nb.len()
        invariant
            board.wf(),
            state@.len() == board.n(),
            tl@.len() == board.n(),
            x < board.n(),
            cell < board.n(),
            forall|c: int| 0 <= c < board.n() ==> (#[trigger] tl@[c] == 1 <==> trial_lights(board, x as int, c)) && (tl@[c] == 0 || tl@[c] == 1),
            nb@ == board.nbrs(cell as int),
            nb@.len() <= 4,
            k <= nb@.len(),
            placed + open <= k,
            placed == trial_placed(state@, nb@.take(k as int), x as int),
            open == trial_open(board, state@, nb@.take(k as int), x as int),
        decreases nb@.len() - k,
    {
        let c = nb[k];
        assert(nb@.take(k + 1).drop_last() =~= nb@.take(k as int));
        if c == x || state[c] == 1 {
            placed += 1;
        } else if state[c] == 0 && tl[c] == 0 {
            open += 1;
        }
        k += 1;
    }
    assert(nb@.take(k as int) =~= nb@);
    (placed, open)
}

/// Lamp trial: for each undecided cell, a lamp is tried there; if it would
/// make some numbered wall unsatisfiable (`WouldMakeShort`) or leave some
/// white cell impossible to light (`WouldCreateUnlit`), the cell gets no lamp.
/// All cells are tried on the entry state before any is forbidden.
pub fn place_breaks(model: &mut Model) -> (r: Status)
    requires
        old(model).wf(),
    ensures
        final(model).board == old(model).board,
        final(model).wf(),
        r != Status::Broken,
        final(model).state@ == breaks_result(old(model).board, old(model).state@),
        refines(final(model).state@, old(model).state@),
        sound_outcome(old(model).board, old(model).state@, final(model).state@, r),
        progress_outcome(old(model).state@, final(model).state@, r),
        final(model).methods.records_two(
            old(model).methods,
            Technique::WouldMakeShort,
            short_count(old(model).board, old(model).state@, old(model).state@.len() as int) as int,
            Technique::WouldCreateUnlit,
            dark_count(old(model).board, old(model).state@, old(model).state@.len() as int) as int,
        ),
{
    let ghost b = model.board;
    let ghost s0 = model.state@;
    let ghost m0 = model.methods;
    let n = model.state.len();
    let lit = model.board.lit(model.state.as_slice());
    let walls = model.board.digit_walls();
    let mut forbid: Vec<(usize, Technique)> = Vec::new();
    let mut x: usize = 0;
    while x < n
        invariant
            model.board == b,
            model.state@ == s0,
            model.wf(),
            n == s0.len() == b.n(),
            x <= n,
            walls@ == b.walls@,
            lit@.len() == n,
            forall|c: int| 0 <= c < n ==> (#[trigger] lit@[c] == 1 <==> b.lights(s0, c)) && (lit@[c] == 0 || lit@[c] == 1),
            forall|q: int| 0 <= q < forbid@.len() ==> {
                &&& (#[trigger] forbid@[q]).0 < x
                &&& breaks_at(b, s0, forbid@[q].0 as int)
                &&& forbid@[q].1 == (if would_make_short(b, s0, forbid@[q].0 as int) { Technique::WouldMakeShort } else { Technique::WouldCreateUnlit })
            },
            forall|q1: int, q2: int| 0 <= q1 < q2 < forbid@.len() ==> (#[trigger] forbid@[q1]).0 < (#[trigger] forbid@[q2]).0,
            forall|y: int| 0 <= y < x && #[trigger] breaks_at(b, s0, y) ==> exists|q: int| 0 <= q < forbid@.len() && #[trigger] forbid@[q].0 == y,
            tech_count(forbid@, Technique::WouldMakeShort) == short_count(b, s0, x as int),
            tech_count(forbid@, Technique::WouldCreateUnlit) == dark_count(b, s0, x as int),
        decreases n - x,
    {
        if model.state[x] != 0 {
            proof {
                assert(!breaks_at(b, s0, x as int));
                assert(short_count(b, s0, x + 1) == short_count(b, s0, x as int));
                assert(dark_count(b, s0, x + 1) == dark_count(b, s0, x as int));
            }
            x += 1;
            continue;
        }
        let tl = trial_light_map(model.board, n, x);
        let mut ok = true;
        let mut w: usize = 0;
        while w < walls.len()
            invariant
                model.board == b,
                model.state@ == s0,
                model.wf(),
                n == s0.len() == b.n(),
                x < n,
                walls@ == b.walls@,
                tl@.len() == n,
                forall|c: int| 0 <= c < n ==> (#[trigger] tl@[c] == 1 <==> trial_lights(b, x as int, c)) && (tl@[c] == 0 || tl@[c] == 1),
                w <= walls@.len(),
                ok ==> forall|k: int| 0 <= k < w ==> !#[trigger] short_at(b, s0, x as int, k),
                !ok ==> would_make_short(b, s0, x as int),
            ensures
                ok <==> !would_make_short(b, s0, x as int),
            decreases walls@.len() - w,
        {
            let (cell, digit) = walls[w];
            assert(cell == b.wall_cell(w as int) && digit == b.wall_digit(w as int));
            let (placed, open) = trial_wall_ok(model.board, model.state.as_slice(), &tl, x, cell);
            if !(placed <= digit && digit <= placed + open) {
                assert(short_at(b, s0, x as int, w as int));
                ok = false;
                break;
            }
            w += 1;
        }
        if !ok {
            let ghost before = forbid@;
            forbid.push((x, Technique::WouldMakeShort));
            proof {
                assert(breaks_at(b, s0, x as int));
                assert(forbid@.drop_last() =~= before);
                assert forall|y: int| 0 <= y < x + 1 && #[trigger] breaks_at(b, s0, y) implies exists|q: int| 0 <= q < forbid@.len() && #[trigger] forbid@[q].0 == y by {
                    if y == x {
                        assert(forbid@[forbid@.len() - 1].0 == y);
                    } else {
                        let q = choose|q: int| 0 <= q < before.len() && #[trigger] before[q].0 == y;
                        assert(forbid@[q].0 == y);
                    }
                }
            }
            x += 1;
            continue;
        }
        let mut all_ok = true;
        let mut v: usize = 0;
        while v < n
            invariant
                model.board == b,
                model.state@ == s0,
                model.wf(),
                n == s0.len() == b.n(),
                x < n,
                tl@.len() == n,
                forall|c: int| 0 <= c < n ==> (#[trigger] tl@[c] == 1 <==> trial_lights(b, x as int, c)) && (tl@[c] == 0 || tl@[c] == 1),
                lit@.len() == n,
                forall|c: int| 0 <= c < n ==> (#[trigger] lit@[c] == 1 <==> b.lights(s0, c)) && (lit@[c] == 0 || lit@[c] == 1),
                v <= n,
                all_ok ==> forall|ww: int| 0 <= ww < v ==> !#[trigger] dark_at(b, s0, x as int, ww),
                !all_ok ==> would_create_unlit(b, s0, x as int),
            ensures
                all_ok <==> !would_create_unlit(b, s0, x as int),
            decreases n - v,
        {
            if model.board.cells[v] != 0 || lit[v] != 0 || tl[v] != 0 {
                v += 1;
                continue;
            }
            let r = &model.board.reach[v];
            assert(r@ == b.rch(v as int));
            let mut viable = false;
            let mut k: usize = 0;
            while k < r.len()
                invariant
                    model.wf(),
                    model.board == b,
                    model.state@ == s0,
                    n == s0.len() == b.n(),
                    v < n,
                    b.cells@[v as int] == 0,
                    tl@.len() == n,
                    forall|c: int| 0 <= c < n ==> (#[trigger] tl@[c] == 1 <==> trial_lights(b, x as int, c)) && (tl@[c] == 0 || tl@[c] == 1),
                    r@ == b.rch(v as int),
                    k <= r@.len(),
                    !viable ==> forall|kk: int| 0 <= kk < k ==> !(s0[#[trigger] b.rch(v as int)[kk] as int] == 0 && !trial_lights(b, x as int, b.rch(v as int)[kk] as int)),
                    viable ==> exists|kk: int| 0 <= kk < r@.len() && (s0[#[trigger] b.rch(v as int)[kk] as int] == 0 && !trial_lights(b, x as int, b.rch(v as int)[kk] as int)),
                ensures
                    !viable ==> forall|kk: int| 0 <= kk < r@.len() ==> !(s0[#[trigger] b.rch(v as int)[kk] as int] == 0 && !trial_lights(b, x as int, b.rch(v as int)[kk] as int)),
                    viable ==> exists|kk: int| 0 <= kk < r@.len() && (s0[#[trigger] b.rch(v as int)[kk] as int] == 0 && !trial_lights(b, x as int, b.rch(v as int)[kk] as int)),
                decreases r@.len() - k,
            {
                let c = r[k];
                assert(b.rch(v as int)[k as int] == c);
                assert(b.rch(v as int) == b.beam(v as int).push(v as usize));
                assert(c < n) by {
                    if (k as int) < b.beam(v as int).len() {
                        assert(b.beam(v as int)[k as int] == c);
                    }
                }
                if model.state[c] == 0 && tl[c] == 0 {
                    viable = true;
                    break;
                }
                k += 1;
            }
            if !viable {
                assert(dark_at(b, s0, x as int, v as int));
                all_ok = false;
                break;
            }
            proof {
                let kk = choose|kk: int| 0 <= kk < r@.len() && (s0[#[trigger] b.rch(v as int)[kk] as int] == 0 && !trial_lights(b, x as int, b.rch(v as int)[kk] as int));
                assert(!dark_at(b, s0, x as int, v as int));
            }
            v += 1;
        }
        let ghost before = forbid@;
        if !all_ok {
            forbid.push((x, Technique::WouldCreateUnlit));
        }
        proof {
            if !all_ok {
                assert(forbid@.drop_last() =~= before);
            }
            assert forall|y: int| 0 <= y < x + 1 && #[trigger] breaks_at(b, s0, y) implies exists|q: int| 0 <= q < forbid@.len() && #[trigger] forbid@[q].0 == y by {
                if y == x {
                    assert(forbid@[forbid@.len() - 1].0 == y);
                } else {
                    let q = choose|q: int| 0 <= q < before.len() && #[trigger] before[q].0 == y;
                    assert(forbid@[q].0 == y);
                }
            }
        }
        x += 1;
    }
    // Apply the forbidden cells.
    proof {
        lemma_keeps_refl(b, s0);
        lemma_refines_refl(s0);
        lemma_changed_to_refl(s0, 2);
        assert(forbid@.take(0) =~= Seq::<(usize, Technique)>::empty());
        assert(applied_breaks(s0, forbid@, 0) =~= s0);
    }
    let mut applied = false;
    let mut q: usize = 0;
    while q < forbid.len()
        invariant
            model.board == b,
            b == old(model).board,
            s0 == old(model).state@,
            m0 == old(model).methods,
            model.wf(),
            n == s0.len() == b.n(),
            q <= forbid@.len(),
            forall|qq: int| 0 <= qq < forbid@.len() ==> {
                &&& (#[trigger] forbid@[qq]).0 < n
                &&& breaks_at(b, s0, forbid@[qq].0 as int)
            },
            forall|q1: int, q2: int| 0 <= q1 < q2 < forbid@.len() ==> (#[trigger] forbid@[q1]).0 < (#[trigger] forbid@[q2]).0,
            model.state@ == applied_breaks(s0, forbid@, q as int),
            keeps_solutions(b, s0, model.state@),
            refines(model.state@, s0),
            model.methods.records_two(m0, Technique::WouldMakeShort, tech_count(forbid@.take(q as int), Technique::WouldMakeShort) as int,
                Technique::WouldCreateUnlit, tech_count(forbid@.take(q as int), Technique::WouldCreateUnlit) as int),
            forall|qq: int| 0 <= qq < forbid@.len() ==> (#[trigger] forbid@[qq]).1 == Technique::WouldMakeShort || forbid@[qq].1 == Technique::WouldCreateUnlit,
            applied <==> q > 0,
            q > 0 ==> model.state@ != s0,
        decreases forbid@.len() - q,
    {
        let (cell, tech) = forbid[q];
        let ghost st = model.state@;
        let ghost mc = model.methods;
        proof {
            assert(st[cell as int] == 0) by {
                assert forall|qq: int| 0 <= qq < q implies forbid@[qq].0 != cell by {
                    assert(forbid@[qq].0 < forbid@[q as int].0);
                }
            }
            lemma_breaks_forced(b, s0, cell as int);
            lemma_set_forced(b, s0, st, cell as int, 2);
        }
        let ret = model.apply(cell, 2, tech);
        proof {
            assert(forbid@.take(q + 1).drop_last() =~= forbid@.take(q as int));
            Methods::lemma_records_two_step(m0, mc, model.methods, Technique::WouldMakeShort,
                tech_count(forbid@.take(q as int), Technique::WouldMakeShort) as int, Technique::WouldCreateUnlit,
                tech_count(forbid@.take(q as int), Technique::WouldCreateUnlit) as int, tech);
            assert(model.state@ =~= applied_breaks(s0, forbid@, q + 1));
            assert(model.state@[cell as int] != s0[cell as int]);
        }
        applied = true;
        q += 1;
    }
    proof {
        assert(forbid@.take(q as int) =~= forbid@);
        assert(model.state@ =~= breaks_result(b, s0)) by {
            assert forall|y: int| 0 <= y < n implies model.state@[y] == breaks_result(b, s0)[y] by {
                if breaks_at(b, s0, y) {
                    let qq = choose|qq: int| 0 <= qq < forbid@.len() && #[trigger] forbid@[qq].0 == y;
                }
            }
        }
        lemma_refines_zeros(model.state@, s0);
    }
    if applied {
        Status::Completed
    } else {
        Status::Stopped
    }
}

/// `s` with the cells of the first `q` entries of `l` set to 2.
pub open spec fn applied_breaks(s: Seq<u8>, l: Seq<(usize, Technique)>, q: int) -> Seq<u8> {
    Seq::new(s.len(), |y: int| if exists|qq: int| 0 <= qq < q && #[trigger] l[qq].0 == y { 2u8 } else { s[y] })
}

} // verus!
