use vstd::prelude::*;

use crate::board::{count_of, Board};
use crate::techniques::Status;

verus! {

/// Cell value `a` of a complete board agrees with cell value `b` of a
/// partial one: a decided cell keeps its value, an undecided one becomes a
/// lamp (1) or a forbidden cell (2).
pub open spec fn ext_cell(a: u8, b: u8) -> bool {
    if b != 0 {
        a == b
    } else {
        a == 1 || a == 2
    }
}

/// `t` is a complete board that agrees with the partial board `s`.
pub open spec fn extends(t: Seq<u8>, s: Seq<u8>) -> bool {
    &&& t.len() == s.len()
    &&& forall|i: int| #![trigger t[i]] #![trigger s[i]] 0 <= i < s.len() ==> ext_cell(t[i], s[i])
}

/// Cell value `a` is `b` or, where `b` is undecided, a value in 0..=2.
pub open spec fn ref_cell(a: u8, b: u8) -> bool {
    if b != 0 {
        a == b
    } else {
        a <= 2
    }
}

/// `new` only decides cells that `old` left undecided, to 1 or 2.
pub open spec fn refines(new: Seq<u8>, old: Seq<u8>) -> bool {
    &&& new.len() == old.len()
    &&& forall|i: int| #![trigger new[i]] #![trigger old[i]] 0 <= i < old.len() ==> ref_cell(new[i], old[i])
}

/// `t` is a solution of the board that agrees with the partial board `s`.
pub open spec fn solves(b: &Board, t: Seq<u8>, s: Seq<u8>) -> bool {
    extends(t, s) && b.is_solution_spec(t)
}

/// Every solution that agrees with `old` agrees with `new`.
pub open spec fn keeps_solutions(b: &Board, old: Seq<u8>, new: Seq<u8>) -> bool {
    forall|t: Seq<u8>| #[trigger] solves(b, t, old) ==> extends(t, new)
}

/// No solution agrees with `s`.
pub open spec fn unsolvable(b: &Board, s: Seq<u8>) -> bool {
    forall|t: Seq<u8>| !#[trigger] solves(b, t, s)
}

/// Every solution that agrees with `s` has value `v` at cell `x`.
pub open spec fn forced(b: &Board, s: Seq<u8>, x: int, v: u8) -> bool {
    forall|t: Seq<u8>| #[trigger] solves(b, t, s) ==> t[x] == v
}

/// What a deduction step promises: it reports a contradiction only when no
/// solution agrees with the board it started from, and otherwise every such
/// solution agrees with the board it leaves.
pub open spec fn sound_outcome(b: &Board, old: Seq<u8>, new: Seq<u8>, st: Status) -> bool {
    if st == Status::Broken {
        unsolvable(b, old)
    } else {
        keeps_solutions(b, old, new)
    }
}

/// What a deduction step promises of its progress: it reports no change
/// only when it changed nothing, and a change only when it decided a cell.
pub open spec fn progress_outcome(old: Seq<u8>, new: Seq<u8>, st: Status) -> bool {
    &&& st == Status::Stopped ==> new == old
    &&& st == Status::Completed ==> zeros(new) < zeros(old)
}

/// The number of undecided (0) cells of `s`.
pub open spec fn zeros(s: Seq<u8>) -> nat
    decreases s.len(),
{
    if s.len() == 0 {
        0
    } else {
        zeros(s.drop_last()) + (if s.last() == 0 { 1nat } else { 0nat })
    }
}

/// There are no more undecided cells than cells.
pub proof fn lemma_zeros_le_len(s: Seq<u8>)
    ensures
        zeros(s) <= s.len(),
    decreases s.len(),
{
    if s.len() > 0 {
        lemma_zeros_le_len(s.drop_last());
    }
}

/// `zeros` is 0 exactly when every cell is decided.
pub proof fn lemma_zeros_none(s: Seq<u8>)
    ensures
        zeros(s) == 0 <==> forall|i: int| 0 <= i < s.len() ==> #[trigger] s[i] != 0,
    decreases s.len(),
{
    if s.len() > 0 {
        lemma_zeros_none(s.drop_last());
        if zeros(s) == 0 {
            assert forall|i: int| 0 <= i < s.len() implies #[trigger] s[i] != 0 by {
                if i < s.len() - 1 {
                    assert(s.drop_last()[i] == s[i]);
                }
            }
        }
        if forall|i: int| 0 <= i < s.len() ==> #[trigger] s[i] != 0 {
            assert forall|i: int| 0 <= i < s.drop_last().len() implies #[trigger] s.drop_last()[i]
                != 0 by {
                assert(s[i] != 0);
            }
            assert(s[s.len() - 1] != 0);
        }
    }
}

/// Refining never adds undecided cells, and a refinement that changes
/// something removes at least one.
pub proof fn lemma_refines_zeros(new: Seq<u8>, old: Seq<u8>)
    requires
        refines(new, old),
    ensures
        zeros(new) <= zeros(old),
        new != old ==> zeros(new) < zeros(old),
    decreases old.len(),
{
    if old.len() > 0 {
        let n2 = new.drop_last();
        let o2 = old.drop_last();
        assert(refines(n2, o2)) by {
            assert forall|i: int| 0 <= i < o2.len() implies ref_cell(n2[i], o2[i]) by {
                assert(ref_cell(new[i], old[i]));
            }
        }
        lemma_refines_zeros(n2, o2);
        assert(ref_cell(new[old.len() - 1], old[old.len() - 1]));
        if new != old {
            if n2 == o2 {
                assert(new.last() != old.last()) by {
                    if new.last() == old.last() {
                        assert(new =~= n2.push(new.last()));
                        assert(old =~= o2.push(old.last()));
                    }
                }
            }
        }
    } else {
        assert(new =~= old);
    }
}

/// Deciding one undecided cell removes exactly one undecided cell.
pub proof fn lemma_zeros_update(s: Seq<u8>, x: int, v: u8)
    requires
        0 <= x < s.len(),
        s[x] == 0,
        v != 0,
    ensures
        zeros(s.update(x, v)) + 1 == zeros(s),
    decreases s.len(),
{
    let u = s.update(x, v);
    if x == s.len() - 1 {
        assert(u.drop_last() =~= s.drop_last());
    } else {
        assert(u.drop_last() =~= s.drop_last().update(x, v));
        lemma_zeros_update(s.drop_last(), x, v);
    }
}

/// Every state refines itself.
pub proof fn lemma_refines_refl(s: Seq<u8>)
    ensures
        refines(s, s),
{
}

/// Refinement is transitive.
pub proof fn lemma_refines_trans(a: Seq<u8>, b: Seq<u8>, c: Seq<u8>)
    requires
        refines(a, b),
        refines(b, c),
    ensures
        refines(a, c),
{
    assert forall|i: int| 0 <= i < c.len() implies ref_cell(a[i], c[i]) by {
        assert(ref_cell(a[i], b[i]));
        assert(ref_cell(b[i], c[i]));
    }
}

/// A complete board that agrees with a refinement agrees with the board it refines.
pub proof fn lemma_extends_refines(t: Seq<u8>, new: Seq<u8>, old: Seq<u8>)
    requires
        extends(t, new),
        refines(new, old),
    ensures
        extends(t, old),
{
    assert forall|i: int| 0 <= i < old.len() implies ext_cell(t[i], old[i]) by {
        assert(ext_cell(t[i], new[i]));
        assert(ref_cell(new[i], old[i]));
    }
}

/// A state keeps its own solutions.
pub proof fn lemma_keeps_refl(b: &Board, s: Seq<u8>)
    ensures
        keeps_solutions(b, s, s),
{
}

/// Keeping solutions is transitive.
pub proof fn lemma_keeps_trans(b: &Board, s0: Seq<u8>, s1: Seq<u8>, s2: Seq<u8>)
    requires
        keeps_solutions(b, s0, s1),
        keeps_solutions(b, s1, s2),
    ensures
        keeps_solutions(b, s0, s2),
{
    assert forall|t: Seq<u8>| #[trigger] solves(b, t, s0) implies extends(t, s2) by {
        assert(solves(b, t, s1));
    }
}

/// If `cur` keeps the solutions of `s0` and refines it, then the solutions
/// of `cur` are exactly those of `s0`.
pub proof fn lemma_keeps_solves(b: &Board, s0: Seq<u8>, cur: Seq<u8>, t: Seq<u8>)
    requires
        keeps_solutions(b, s0, cur),
        refines(cur, s0),
    ensures
        solves(b, t, s0) <==> solves(b, t, cur),
{
    if solves(b, t, cur) {
        lemma_extends_refines(t, cur, s0);
    }
}

/// Setting a cell to the value that every solution of `s0` gives it keeps
/// the solutions of `s0`.
pub proof fn lemma_set_forced(b: &Board, s0: Seq<u8>, cur: Seq<u8>, x: int, v: u8)
    requires
        keeps_solutions(b, s0, cur),
        refines(cur, s0),
        0 <= x < cur.len(),
        v == 1 || v == 2,
        cur[x] == 0 || cur[x] == v,
        forced(b, s0, x, v),
    ensures
        keeps_solutions(b, s0, cur.update(x, v)),
        refines(cur.update(x, v), s0),
{
    let u = cur.update(x, v);
    assert forall|t: Seq<u8>| #[trigger] solves(b, t, s0) implies extends(t, u) by {
        assert(extends(t, cur));
        assert(t[x] == v);
        assert forall|i: int| 0 <= i < u.len() implies ext_cell(t[i], u[i]) by {
            assert(ext_cell(t[i], cur[i]));
        }
    }
    assert forall|i: int| 0 <= i < s0.len() implies ref_cell(u[i], s0[i]) by {
        assert(ref_cell(cur[i], s0[i]));
    }
}

/// A board with no solution stays without one in any refinement, and a
/// refinement that keeps the solutions of `s0` is unsolvable only if `s0` is.
pub proof fn lemma_unsolvable_back(b: &Board, s0: Seq<u8>, cur: Seq<u8>)
    requires
        keeps_solutions(b, s0, cur),
        unsolvable(b, cur),
    ensures
        unsolvable(b, s0),
{
    assert forall|t: Seq<u8>| !#[trigger] solves(b, t, s0) by {
        if solves(b, t, s0) {
            assert(extends(t, cur));
            assert(solves(b, t, cur));
        }
    }
}

/// Lamp counts of a complete board lie between those of a partial board it
/// agrees with: at least its lamps, at most its lamps plus undecided cells.
pub proof fn lemma_count_extends(t: Seq<u8>, s: Seq<u8>, idx: Seq<usize>)
    requires
        extends(t, s),
        forall|k: int| 0 <= k < idx.len() ==> #[trigger] idx[k] < s.len(),
    ensures
        count_of(s, idx, 1) <= count_of(t, idx, 1) <= count_of(s, idx, 1) + count_of(s, idx, 0),
    decreases idx.len(),
{
    if idx.len() > 0 {
        let p = idx.drop_last();
        assert forall|k: int| 0 <= k < p.len() implies #[trigger] p[k] < s.len() by {
            assert(idx[k] < s.len());
        }
        lemma_count_extends(t, s, p);
        let x = idx.last() as int;
        assert(idx[idx.len() - 1] < s.len());
        assert(ext_cell(t[x], s[x]));
    }
}

/// Deciding more cells never removes a lamp from a list of cells, and never
/// adds to its lamps plus undecided cells.
pub proof fn lemma_count_refines(s2: Seq<u8>, s: Seq<u8>, idx: Seq<usize>)
    requires
        refines(s2, s),
        forall|k: int| 0 <= k < idx.len() ==> #[trigger] idx[k] < s.len(),
    ensures
        count_of(s, idx, 1) <= count_of(s2, idx, 1),
        count_of(s2, idx, 1) + count_of(s2, idx, 0) <= count_of(s, idx, 1) + count_of(s, idx, 0),
    decreases idx.len(),
{
    if idx.len() > 0 {
        let p = idx.drop_last();
        assert forall|k: int| 0 <= k < p.len() implies #[trigger] p[k] < s.len() by {
            assert(idx[k] < s.len());
        }
        lemma_count_refines(s2, s, p);
        let x = idx.last() as int;
        assert(idx[idx.len() - 1] < s.len());
        assert(ref_cell(s2[x], s[x]));
    }
}

/// Consistency is lost for good: a board that decides more cells of an
/// inconsistent board is inconsistent too, and is no solution.
pub proof fn lemma_inconsistent_stays(b: &Board, s: Seq<u8>, s2: Seq<u8>)
    requires
        b.wf(),
        s.len() == b.n(),
        refines(s2, s),
        !b.is_consistent_spec(s),
    ensures
        !b.is_consistent_spec(s2),
        !b.is_solution_spec(s2),
{
    if !b.no_lamp_conflict(s) {
        let (i, k) = choose|i: int, k: int|
            !(0 <= i < s.len() && 0 <= k < b.beam(i).len() && s[i] == 1 ==> s[#[trigger] b.beam(i)[k] as int] != 1);
        assert(ref_cell(s2[i], s[i]));
        let c = b.beam(i)[k] as int;
        assert(ref_cell(s2[c], s[c]));
        assert(!b.no_lamp_conflict(s2));
    } else if !(forall|k: int| 0 <= k < b.walls@.len() ==> #[trigger] b.wall_feasible(s, k)) {
        let k = choose|k: int| 0 <= k < b.walls@.len() && !#[trigger] b.wall_feasible(s, k);
        let nb = b.nbrs(b.wall_cell(k));
        assert(0 <= b.wall_cell(k) < b.n());
        assert forall|q: int| 0 <= q < nb.len() implies #[trigger] nb[q] < s.len() by {}
        lemma_count_refines(s2, s, nb);
        assert(!b.wall_feasible(s2, k));
    } else {
        let v = choose|v: int|
            !(0 <= v < s.len() && b.cells@[v] == 0 && !b.lights(s, v) ==> #[trigger] b.has_open_source(s, v));
        assert(b.rch(v) == b.beam(v).push(v as usize));
        assert forall|k: int| 0 <= k < b.rch(v).len() implies s2[#[trigger] b.rch(v)[k] as int] == s[b.rch(v)[k] as int] by {
            let c = b.rch(v)[k] as int;
            if k < b.beam(v).len() {
                assert(b.beam(v)[k] == c);
            }
            assert(s[c] != 0);
            assert(ref_cell(s2[c], s[c]));
        }
        lemma_lights_own_reach(b, s, v);
        lemma_lights_own_reach(b, s2, v);
        if b.lights(s2, v) {
            let k = choose|k: int| 0 <= k < b.rch(v).len() && s2[#[trigger] b.rch(v)[k] as int] == 1;
            assert(s[b.rch(v)[k] as int] == 1);
        }
        if b.has_open_source(s2, v) {
            let k = choose|k: int| 0 <= k < b.rch(v).len() && s2[#[trigger] b.rch(v)[k] as int] == 0;
            assert(s[b.rch(v)[k] as int] == 0);
        }
        assert(!b.is_consistent_spec(s2));
    }
    if b.is_solution_spec(s2) {
        lemma_decided_consistent_iff_solution(b, s2);
    }
}

/// With every cell of `s` decided, `t` agrees with `s` only if it is `s`.
pub proof fn lemma_extends_decided(t: Seq<u8>, s: Seq<u8>)
    requires
        extends(t, s),
        forall|i: int| 0 <= i < s.len() ==> #[trigger] s[i] != 0,
    ensures
        t == s,
{
    assert forall|i: int| 0 <= i < s.len() implies t[i] == s[i] by {
        assert(ext_cell(t[i], s[i]));
    }
    assert(t =~= s);
}

/// A fully decided board with values in 1..=2 agrees with itself.
pub proof fn lemma_extends_self(s: Seq<u8>)
    requires
        forall|i: int| 0 <= i < s.len() ==> #[trigger] s[i] != 0,
    ensures
        extends(s, s),
{
}

/// Lighting is mutual: white cell `c` is lit exactly when a cell of its own
/// reach holds a lamp.
pub proof fn lemma_lights_own_reach(b: &Board, s: Seq<u8>, c: int)
    requires
        b.wf(),
        s.len() == b.n(),
        0 <= c < b.n(),
        b.cells@[c] == 0,
    ensures
        b.lights(s, c) <==> exists|k: int| 0 <= k < b.rch(c).len() && s[#[trigger] b.rch(c)[k] as int] == 1,
{
    assert(b.rch(c) == b.beam(c).push(c as usize));
    if b.lights(s, c) {
        let (j, k) = choose|j: int, k: int|
            0 <= j < s.len() && 0 <= k < b.rch(j).len() && s[j] == 1 && #[trigger] b.rch(j)[k] == c;
        if b.cells@[j] != 0 {
            assert(b.rch(j).len() == 0);
        }
        assert(b.rch(j) == b.beam(j).push(j as usize));
        if k == b.beam(j).len() {
            assert(b.beam(j).push(j as usize)[k] == j as usize);
            assert(j == c);
            assert(b.rch(c)[b.beam(c).len() as int] == c);
        } else {
            assert(b.beam(j)[k] == c);
            assert(b.beam(c).contains(j as usize));
            let m = choose|m: int| 0 <= m < b.beam(c).len() && b.beam(c)[m] == j as usize;
            assert(b.beam(c).push(c as usize)[m] == b.beam(c)[m]);
            assert(b.rch(c)[m] == j);
        }
    }
    if exists|k: int| 0 <= k < b.rch(c).len() && s[#[trigger] b.rch(c)[k] as int] == 1 {
        let k = choose|k: int| 0 <= k < b.rch(c).len() && s[#[trigger] b.rch(c)[k] as int] == 1;
        if k == b.beam(c).len() {
            assert(b.rch(c)[k] == c);
            assert(b.rch(c)[k] == c);
        } else {
            let j = b.beam(c)[k] as int;
            assert(b.rch(c)[k] == j);
            assert(0 <= j < b.n() && b.cells@[j] == 0 && b.beam(j).contains(c as usize));
            let m = choose|m: int| 0 <= m < b.beam(j).len() && b.beam(j)[m] == c as usize;
            assert(b.rch(j) == b.beam(j).push(j as usize));
            assert(b.beam(j).push(j as usize)[m] == b.beam(j)[m]);
            assert(b.rch(j)[m] == c);
        }
    }
}

/// A board that some solution agrees with passes the consistency test.
pub proof fn lemma_solvable_is_consistent(b: &Board, s: Seq<u8>, t: Seq<u8>)
    requires
        b.wf(),
        s.len() == b.n(),
        solves(b, t, s),
    ensures
        b.is_consistent_spec(s),
{
    assert(b.no_lamp_conflict(s)) by {
        assert forall|i: int, k: int|
            0 <= i < s.len() && 0 <= k < b.beam(i).len() && s[i] == 1 implies s[#[trigger] b.beam(
            i,
        )[k] as int] != 1 by {
            assert(ext_cell(t[i], s[i]));
            let j = b.beam(i)[k] as int;
            assert(t[j] != 1);
            assert(ext_cell(t[j], s[j]));
        }
    }
    assert forall|k: int| 0 <= k < b.walls@.len() implies #[trigger] b.wall_feasible(s, k) by {
        let nb = b.nbrs(b.wall_cell(k));
        assert(0 <= b.wall_cell(k) < b.n());
        assert forall|q: int| 0 <= q < nb.len() implies #[trigger] nb[q] < s.len() by {
            assert(b.nbrs(b.wall_cell(k)).len() <= 4);
        }
        lemma_count_extends(t, s, nb);
    }
    assert forall|v: int|
        0 <= v < s.len() && b.cells@[v] == 0 && !b.lights(s, v) implies #[trigger] b.has_open_source(
        s,
        v,
    ) by {
        assert(b.lights(t, v));
        lemma_lights_own_reach(b, t, v);
        lemma_lights_own_reach(b, s, v);
        let k = choose|k: int| 0 <= k < b.rch(v).len() && t[#[trigger] b.rch(v)[k] as int] == 1;
        let j = b.rch(v)[k] as int;
        assert(b.rch(v) == b.beam(v).push(v as usize));
        assert(0 <= j < s.len()) by {
            if k < b.beam(v).len() {
                assert(b.beam(v)[k] == j);
            }
        }
        assert(ext_cell(t[j], s[j]));
        assert(s[j] != 1);
        assert(s[b.rch(v)[k] as int] == 0);
    }
}

/// On a fully decided board, passing the consistency test and being a
/// solution are the same thing.
pub proof fn lemma_decided_consistent_iff_solution(b: &Board, s: Seq<u8>)
    requires
        b.wf(),
        s.len() == b.n(),
        forall|i: int| 0 <= i < s.len() ==> #[trigger] s[i] != 0,
    ensures
        b.is_consistent_spec(s) <==> b.is_solution_spec(s),
{
    if b.is_solution_spec(s) {
        lemma_extends_self(s);
        lemma_solvable_is_consistent(b, s, s);
    }
    if b.is_consistent_spec(s) {
        assert forall|k: int| 0 <= k < b.walls@.len() implies count_of(
            s,
            b.nbrs(#[trigger] b.wall_cell(k)),
            1,
        ) == b.wall_digit(k) by {
            assert(b.wall_feasible(s, k));
            lemma_count_zero_none(s, b.nbrs(b.wall_cell(k)));
        }
        assert forall|i: int| 0 <= i < s.len() && b.cells@[i] == 0 implies #[trigger] b.lights(
            s,
            i,
        ) by {
            if !b.lights(s, i) {
                assert(b.has_open_source(s, i));
                let k = choose|k: int| 0 <= k < b.rch(i).len() && s[#[trigger] b.rch(i)[k] as int] == 0;
                let j = b.rch(i)[k] as int;
                assert(b.rch(i) == b.beam(i).push(i as usize));
                if k < b.beam(i).len() {
                    assert(b.beam(i)[k] == j);
                }
                assert(s[j] != 0);
            }
        }
    }
}

/// Where no listed cell is undecided, the count of undecided cells is 0.
pub proof fn lemma_count_zero_none(s: Seq<u8>, idx: Seq<usize>)
    requires
        forall|i: int| 0 <= i < s.len() ==> #[trigger] s[i] != 0,
        forall|k: int| 0 <= k < idx.len() ==> #[trigger] idx[k] < s.len(),
    ensures
        count_of(s, idx, 0) == 0,
    decreases idx.len(),
{
    if idx.len() > 0 {
        let p = idx.drop_last();
        assert forall|k: int| 0 <= k < p.len() implies #[trigger] p[k] < s.len() by {
            assert(idx[k] < s.len());
        }
        lemma_count_zero_none(s, p);
        assert(idx[idx.len() - 1] < s.len());
        assert(s[idx.last() as int] != 0);
    }
}


/// The number of cells undecided in `old` that hold `v` in `new`.
pub open spec fn changed_to(old: Seq<u8>, new: Seq<u8>, v: u8) -> nat
    decreases old.len(),
{
    if old.len() == 0 || new.len() != old.len() {
        0
    } else {
        changed_to(old.drop_last(), new.drop_last(), v) + (if old.last() == 0 && new.last() == v {
            1nat
        } else {
            0nat
        })
    }
}

/// A state changes no cell of itself.
pub proof fn lemma_changed_to_refl(s: Seq<u8>, v: u8)
    requires
        v != 0,
    ensures
        changed_to(s, s, v) == 0,
    decreases s.len(),
{
    if s.len() > 0 {
        lemma_changed_to_refl(s.drop_last(), v);
    }
}

/// Deciding an undecided cell to `v` adds one to the count for `v` and
/// leaves the counts of the other values alone.
pub proof fn lemma_changed_to_update(old: Seq<u8>, cur: Seq<u8>, x: int, v: u8, w: u8)
    requires
        cur.len() == old.len(),
        0 <= x < old.len(),
        old[x] == 0,
        cur[x] == 0,
        v != 0,
        w != 0,
    ensures
        changed_to(old, cur.update(x, v), w) == changed_to(old, cur, w) + (if w == v {
            1nat
        } else {
            0nat
        }),
    decreases old.len(),
{
    let u = cur.update(x, v);
    if x == old.len() - 1 {
        assert(u.drop_last() =~= cur.drop_last());
    } else {
        assert(u.drop_last() =~= cur.drop_last().update(x, v));
        lemma_changed_to_update(old.drop_last(), cur.drop_last(), x, v, w);
    }
}

/// If a listed cell is undecided in `s`, a complete board that agrees with
/// `s` has one more lamp than `s` there when it puts a lamp on that cell,
/// and one lamp fewer than the bound otherwise.
pub proof fn lemma_count_extends_at(t: Seq<u8>, s: Seq<u8>, idx: Seq<usize>, x: int)
    requires
        extends(t, s),
        forall|k: int| 0 <= k < idx.len() ==> #[trigger] idx[k] < s.len(),
        idx.contains(x as usize),
        s.len() <= usize::MAX,
        0 <= x < s.len(),
        s[x] == 0,
    ensures
        t[x] == 1 ==> count_of(t, idx, 1) >= count_of(s, idx, 1) + 1,
        t[x] != 1 ==> count_of(t, idx, 1) + 1 <= count_of(s, idx, 1) + count_of(s, idx, 0),
    decreases idx.len(),
{
    let p = idx.drop_last();
    assert forall|k: int| 0 <= k < p.len() implies #[trigger] p[k] < s.len() by {
        assert(idx[k] < s.len());
    }
    let y = idx.last() as int;
    assert(idx[idx.len() - 1] < s.len());
    assert(ext_cell(t[y], s[y]));
    if y == x {
        lemma_count_extends(t, s, p);
    } else {
        let m = choose|m: int| 0 <= m < idx.len() && idx[m] == x as usize;
        assert(m != idx.len() - 1);
        assert(p[m] == x as usize);
        lemma_count_extends_at(t, s, p, x);
    }
}

} // verus!
