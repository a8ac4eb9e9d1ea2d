use vstd::prelude::*;

use crate::answer_methods::{Methods, Technique};
use crate::board::{clue_neighbors, lamp_beam, Board};
use crate::rules::{
    ext_cell, extends, forced, keeps_solutions, lemma_keeps_refl, lemma_keeps_trans,
    lemma_refines_refl, lemma_refines_trans, lemma_refines_zeros, lemma_set_forced,
    lemma_unsolvable_back, lemma_zeros_update, progress_outcome, refines, solves, sound_outcome,
    unsolvable, zeros,
};
use crate::techniques::source_cases::trial_round;
use crate::techniques::{unique_source, Status};

verus! {

/// A solving model: the board, the current cell states (0 = undecided,
/// 1 = lamp, 2 = no lamp; walls start as 2) and the technique record.
pub struct Model<'a, 'b: 'a> {
    pub board: &'a Board<'b>,
    pub state: Vec<u8>,
    pub methods: Methods,
}

impl<'a, 'b: 'a> Model<'a, 'b> {
    /// The model's board is well formed and its state covers the board with
    /// values 0 (undecided), 1 (lamp) or 2 (no lamp).
    pub open spec fn wf(&self) -> bool {
        &&& self.board.wf()
        &&& self.state@.len() == self.board.n()
        &&& valid_state(self.state@)
    }

    /// Sets cell `idx` to `value` and records `tech`: an undecided cell is
    /// set (`Completed`), a cell that already holds `value` is left as it is
    /// (`Stopped`), any other value is a conflict (`Broken`).
    pub fn apply(&mut self, idx: usize, value: u8, tech: Technique) -> (r: Status)
        requires
            idx < old(self).state@.len(),
        ensures
            final(self).board == old(self).board,
            old(self).state@[idx as int] == 0 ==> r == Status::Completed && final(self).state@
                == old(self).state@.update(idx as int, value) && final(self).methods.records(
                old(self).methods,
                tech,
                1,
            ),
            old(self).state@[idx as int] != 0 ==> final(self).state@ == old(self).state@
                && final(self).methods == old(self).methods && (r == if old(self).state@[idx as int]
                == value {
                Status::Stopped
            } else {
                Status::Broken
            }),
    {
        let current = self.state[idx];
        if current == 0 {
            self.state.set(idx, value);
            self.methods.record(tech);
            Status::Completed
        } else if current == value {
            Status::Stopped
        } else {
            Status::Broken
        }
    }

    /// Sets cell `idx` to `value` without recording a technique; the outcome
    /// is as for `apply`.
    pub fn apply_raw(&mut self, idx: usize, value: u8) -> (r: Status)
        requires
            idx < old(self).state@.len(),
        ensures
            final(self).board == old(self).board,
            final(self).methods == old(self).methods,
            old(self).state@[idx as int] == 0 ==> r == Status::Completed && final(self).state@
                == old(self).state@.update(idx as int, value),
            old(self).state@[idx as int] != 0 ==> final(self).state@ == old(self).state@ && (r
                == if old(self).state@[idx as int] == value {
                Status::Stopped
            } else {
                Status::Broken
            }),
    {
        let current = self.state[idx];
        if current == 0 {
            self.state.set(idx, value);
            Status::Completed
        } else if current == value {
            Status::Stopped
        } else {
            Status::Broken
        }
    }

    /// The number of undecided cells.
    pub fn undecided(&self) -> (r: usize)
        ensures
            r == zeros(self.state@),
    {
        count_undecided(self.state.as_slice())
    }
}

/// Applies the decisions `list` to `s` in order, as `Model::apply` does:
/// the outcome (`Broken` at the first decision that contradicts a decided
/// cell, which stops there; else `Completed` when some cell was set, else
/// `Stopped`) and the resulting state.
pub open spec fn apply_all(s: Seq<u8>, list: Seq<(usize, u8)>) -> (Status, Seq<u8>)
    decreases list.len(),
{
    if list.len() == 0 {
        (Status::Stopped, s)
    } else {
        let prev = apply_all(s, list.drop_last());
        let c = list.last().0 as int;
        let v = list.last().1;
        if prev.0 == Status::Broken {
            prev
        } else if prev.1[c] == 0 {
            (Status::Completed, prev.1.update(c, v))
        } else if prev.1[c] == v {
            prev
        } else {
            (Status::Broken, prev.1)
        }
    }
}

/// Once a prefix of the decisions breaks, the rest changes nothing.
pub proof fn lemma_apply_all_broken(s: Seq<u8>, list: Seq<(usize, u8)>, q: int)
    requires
        0 <= q <= list.len(),
        apply_all(s, list.take(q)).0 == Status::Broken,
    ensures
        apply_all(s, list) == apply_all(s, list.take(q)),
    decreases list.len() - q,
{
    if q < list.len() {
        assert(list.take(q + 1).drop_last() =~= list.take(q));
        lemma_apply_all_broken(s, list, q + 1);
    } else {
        assert(list.take(q) =~= list);
    }
}

/// Every decision of `list` is about an undecided cell of `s` and gives it a
/// lamp or no lamp.
pub open spec fn decisions_on_undecided(s: Seq<u8>, list: Seq<(usize, u8)>) -> bool {
    forall|q: int| 0 <= q < list.len() ==> {
        &&& (#[trigger] list[q]).0 < s.len()
        &&& s[list[q].0 as int] == 0
        &&& list[q].1 != 0
    }
}

/// Two decisions of `list` give one cell different values.
pub open spec fn decisions_conflict(list: Seq<(usize, u8)>) -> bool {
    exists|p: int, q: int| 0 <= p < q < list.len() && #[trigger] list[p].0 == #[trigger] list[q].0 && list[p].1 != list[q].1
}

/// Applying decisions about undecided cells breaks exactly when two of them
/// disagree on a cell; otherwise every decided cell gets its value, every
/// changed cell was decided so, and something changes exactly when the list
/// is not empty.
pub proof fn lemma_apply_all_entries(s: Seq<u8>, list: Seq<(usize, u8)>)
    requires
        decisions_on_undecided(s, list),
    ensures
        apply_all(s, list).1.len() == s.len(),
        (apply_all(s, list).0 == Status::Broken) == decisions_conflict(list),
        apply_all(s, list).0 != Status::Broken ==> forall|q: int| 0 <= q < list.len()
            ==> apply_all(s, list).1[(#[trigger] list[q]).0 as int] == list[q].1,
        apply_all(s, list).0 != Status::Broken ==> forall|i: int| 0 <= i < s.len() && #[trigger] apply_all(s, list).1[i] != s[i]
            ==> exists|q: int| 0 <= q < list.len() && (#[trigger] list[q]).0 == i && list[q].1 == apply_all(s, list).1[i],
        (apply_all(s, list).0 == Status::Completed) == (apply_all(s, list).0 != Status::Broken && list.len() > 0),
    decreases list.len(),
{
    if list.len() > 0 {
        let l = list.drop_last();
        assert forall|q: int| 0 <= q < l.len() implies {
            &&& (#[trigger] l[q]).0 < s.len()
            &&& s[l[q].0 as int] == 0
            &&& l[q].1 != 0
        } by {
            assert(l[q] == list[q]);
        }
        lemma_apply_all_entries(s, l);
        let prev = apply_all(s, l);
        let last = list.len() - 1;
        let c = list[last].0 as int;
        let v = list[last].1;
        assert(list[last] == list.last());
        assert(s[c] == 0 && v != 0);
        let r = apply_all(s, list);
        if prev.0 == Status::Broken {
            let (p, q) = choose|p: int, q: int| 0 <= p < q < l.len() && #[trigger] l[p].0 == #[trigger] l[q].0 && l[p].1 != l[q].1;
            assert(list[p] == l[p] && list[q] == l[q]);
        } else {
            if prev.1[c] == 0 {
                assert forall|q: int| 0 <= q < l.len() implies (#[trigger] l[q]).0 != c by {
                    assert(prev.1[l[q].0 as int] == l[q].1);
                }
                assert(!decisions_conflict(list)) by {
                    if decisions_conflict(list) {
                        let (p, q) = choose|p: int, q: int| 0 <= p < q < list.len() && #[trigger] list[p].0 == #[trigger] list[q].0 && list[p].1 != list[q].1;
                        assert(list[p] == l[p]);
                        if q < last {
                            assert(list[q] == l[q]);
                        }
                    }
                }
                assert forall|q: int| 0 <= q < list.len() implies r.1[(#[trigger] list[q]).0 as int] == list[q].1 by {
                    if q < last {
                        assert(list[q] == l[q]);
                        assert(l[q].0 != c);
                    }
                }
                assert forall|i: int| 0 <= i < s.len() && #[trigger] r.1[i] != s[i]
                    implies exists|q: int| 0 <= q < list.len() && (#[trigger] list[q]).0 == i && list[q].1 == r.1[i] by {
                    if i != c {
                        let q = choose|q: int| 0 <= q < l.len() && (#[trigger] l[q]).0 == i && l[q].1 == prev.1[i];
                        assert(list[q] == l[q]);
                    }
                }
            } else if prev.1[c] == v {
                assert(!decisions_conflict(list)) by {
                    if decisions_conflict(list) {
                        let (p, q) = choose|p: int, q: int| 0 <= p < q < list.len() && #[trigger] list[p].0 == #[trigger] list[q].0 && list[p].1 != list[q].1;
                        assert(list[p] == l[p]);
                        if q < last {
                            assert(list[q] == l[q]);
                        } else {
                            assert(prev.1[l[p].0 as int] == l[p].1);
                        }
                    }
                }
                assert forall|q: int| 0 <= q < list.len() implies r.1[(#[trigger] list[q]).0 as int] == list[q].1 by {
                    if q < last {
                        assert(list[q] == l[q]);
                    }
                }
                assert forall|i: int| 0 <= i < s.len() && #[trigger] r.1[i] != s[i]
                    implies exists|q: int| 0 <= q < list.len() && (#[trigger] list[q]).0 == i && list[q].1 == r.1[i] by {
                    let q = choose|q: int| 0 <= q < l.len() && (#[trigger] l[q]).0 == i && l[q].1 == prev.1[i];
                    assert(list[q] == l[q]);
                }
                assert(prev.1[c] != s[c]);
                if l.len() == 0 {
                    assert(prev.1 == s);
                }
            } else {
                assert(prev.1[c] != s[c]);
                let q = choose|q: int| 0 <= q < l.len() && (#[trigger] l[q]).0 == c && l[q].1 == prev.1[c];
                assert(list[q] == l[q]);
                assert(list[q].0 == list[last].0);
            }
        }
    }
}

/// Every cell of `s` holds 0, 1 or 2.
pub open spec fn valid_state(s: Seq<u8>) -> bool {
    forall|i: int| 0 <= i < s.len() ==> #[trigger] s[i] <= 2
}

/// The number of undecided (0) cells of `s`.
pub fn count_undecided(s: &[u8]) -> (r: usize)
    ensures
        r == zeros(s@),
{
    let mut count: usize = 0;
    let mut i: usize = 0;
    while i < s.len()
        invariant
            i <= s@.len(),
            count == zeros(s@.take(i as int)),
            count <= i,
        decreases s@.len() - i,
    {
        assert(s@.take(i + 1).drop_last() =~= s@.take(i as int));
        if s[i] == 0 {
            count += 1;
        }
        i += 1;
    }
    assert(s@.take(i as int) =~= s@);
    count
}

/// Cell `i` touches a wall or a decided cell among its neighbours.
pub open spec fn touches_decided(b: &Board, s: Seq<u8>, i: int) -> bool {
    exists|k: int|
        0 <= k < b.nbrs(i).len() && (b.cells@[#[trigger] b.nbrs(i)[k] as int] != 0 || s[b.nbrs(
            i,
        )[k] as int] != 0)
}

/// Cell `i` is a trial candidate: undecided, next to a wall or a decided cell.
pub open spec fn is_candidate(b: &Board, s: Seq<u8>, i: int) -> bool {
    s[i] == 0 && touches_decided(b, s, i)
}

/// The first trial candidate at index `start` or later, if any.
pub fn next_candidate(board: &Board, state: &[u8], start: usize) -> (r: Option<usize>)
    requires
        board.wf(),
        state@.len() == board.n(),
    ensures
        match r {
            Some(i) => start <= i < state@.len() && is_candidate(board, state@, i as int) && forall|
                j: int,
            |
                start <= j < i ==> !#[trigger] is_candidate(board, state@, j),
            None => forall|j: int| start <= j < state@.len() ==> !#[trigger] is_candidate(board, state@, j),
        },
{
    let mut i = start;
    while i < state.len()
        invariant
            board.wf(),
            state@.len() == board.n(),
            start <= i || i == start,
            forall|j: int| start <= j < i ==> !#[trigger] is_candidate(board, state@, j),
        decreases state@.len() - i,
    {
        if state[i] == 0 {
            let nb = &board.neighbors[i];
            assert(nb@ == board.nbrs(i as int));
            let mut k: usize = 0;
            while k < nb.len()
                invariant
                    board.wf(),
                    state@.len() == board.n(),
                    i < state@.len(),
                    start <= i,
                    forall|j: int| start <= j < i ==> !#[trigger] is_candidate(board, state@, j),
                    state@[i as int] == 0,
                    nb@ == board.nbrs(i as int),
                    k <= nb@.len(),
                    forall|kk: int|
                        0 <= kk < k ==> board.cells@[#[trigger] board.nbrs(i as int)[kk] as int] == 0
                            && state@[board.nbrs(i as int)[kk] as int] == 0,
                decreases nb@.len() - k,
            {
                let c = nb[k];
                assert(board.nbrs(i as int)[k as int] == c);
                if board.cells[c] != 0 || state[c] != 0 {
                    assert(touches_decided(board, state@, i as int));
                    return Some(i);
                }
                k += 1;
            }
            assert(!touches_decided(board, state@, i as int));
        }
        i += 1;
    }
    None
}

/// Index `i` is decided alike in both trial copies while undecided in `base`.
pub open spec fn common_at(base: Seq<u8>, c1: Seq<u8>, c2: Seq<u8>, i: int) -> bool {
    base[i] == 0 && c1[i] != 0 && c1[i] == c2[i]
}

/// Scans from `start` for the first cell undecided in `base` that both trial
/// copies decide alike; returns it with its value, or `(base.len(), 3)` when
/// there is none.
pub fn common_determined(base: &[u8], copy1: &[u8], copy2: &[u8], start: usize) -> (r: (usize, u8))
    requires
        copy1@.len() >= base@.len(),
        copy2@.len() >= base@.len(),
    ensures
        (exists|i: int| start <= i < base@.len() && common_at(base@, copy1@, copy2@, i)) ==> {
            &&& start <= r.0 < base@.len()
            &&& common_at(base@, copy1@, copy2@, r.0 as int)
            &&& r.1 == copy1@[r.0 as int]
            &&& forall|j: int| start <= j < r.0 ==> !#[trigger] common_at(base@, copy1@, copy2@, j)
        },
        !(exists|i: int| start <= i < base@.len() && common_at(base@, copy1@, copy2@, i)) ==> r == (
        base@.len() as usize,
        3u8,
        ),
{
    let mut i = start;
    while i < base.len()
        invariant
            copy1@.len() >= base@.len(),
            copy2@.len() >= base@.len(),
            start <= i,
            forall|j: int| start <= j < i ==> !#[trigger] common_at(base@, copy1@, copy2@, j),
        decreases base@.len() - i,
    {
        if base[i] == 0 {
            let s = copy1[i];
            if s != 0 && s == copy2[i] {
                assert(common_at(base@, copy1@, copy2@, i as int));
                return (i, s);
            }
        }
        assert(!common_at(base@, copy1@, copy2@, i as int));
        i += 1;
    }
    assert forall|j: int| start <= j < base@.len() implies !common_at(base@, copy1@, copy2@, j) by {
        assert(!common_at(base@, copy1@, copy2@, j));
    }
    (base.len(), 3)
}

/// The difficulty tallies of the trial stage.
pub struct TrialTally {
    /// How often a trial reached a conclusion (one branch contradicted, or
    /// both branches agreed on some cell).
    pub conclusions: u32,
    /// The conclusions and nested counts of all nested trials.
    pub nested: u32,
}

impl Default for TrialTally {
    fn default() -> (t: TrialTally)
        ensures
            t.conclusions == 0 && t.nested == 0,
    {
        TrialTally { conclusions: 0, nested: 0 }
    }
}


/// `s` with cell `x` set to `v` keeps exactly the solutions of `s` that give
/// `x` the value `v`.
proof fn lemma_solves_update(b: &Board, t: Seq<u8>, s: Seq<u8>, x: int, v: u8)
    requires
        0 <= x < s.len(),
        s[x] == 0,
        v == 1 || v == 2,
        solves(b, t, s),
        t[x] == v,
    ensures
        solves(b, t, s.update(x, v)),
{
    assert forall|i: int| 0 <= i < s.len() implies ext_cell(t[i], s.update(x, v)[i]) by {
        assert(ext_cell(t[i], s[i]));
    }
}

/// The number `a + b` saturated at `u32::MAX`.
pub open spec fn sat_add(a: int, b: int) -> int {
    if a + b <= u32::MAX { a + b } else { u32::MAX as int }
}

/// The trial candidates of `s` among cells `0..i`, in cell order.
pub open spec fn candidates_upto(b: &Board, s: Seq<u8>, i: int) -> Seq<usize>
    decreases i,
{
    if i <= 0 {
        Seq::empty()
    } else {
        let prev = candidates_upto(b, s, i - 1);
        if is_candidate(b, s, i - 1) {
            prev.push((i - 1) as usize)
        } else {
            prev
        }
    }
}

/// `s` with each cell that it leaves undecided and both trial boards decide
/// alike set to their value.
pub open spec fn merge_common(s: Seq<u8>, c1: Seq<u8>, c2: Seq<u8>) -> Seq<u8> {
    Seq::new(s.len(), |i: int| if common_at(s, c1, c2, i) { c1[i] } else { s[i] })
}

/// 1 for an outcome that concludes something, else 0.
pub open spec fn concluded(st: Status) -> int {
    if st == Status::Completed {
        1
    } else {
        0
    }
}

/// What a trial placement of depth `depth` does to `s`, `nested` being the
/// nested count before it: its outcome, the board it leaves, and the nested
/// count after it.
pub open spec fn placement_spec(b: &Board, s: Seq<u8>, depth: nat, nested: int) -> (Status, Seq<u8>, int)
    decreases depth, 2int, 0int,
{
    let cands = candidates_upto(b, s, s.len() as int);
    if cands.len() == 0 {
        (Status::Stopped, s, nested)
    } else {
        placement_scan(b, s, depth, cands, 0, nested)
    }
}

/// Trying the candidates `cands[ci..]` of `s` in turn, both ways, until one
/// concludes: both trials broken, one trial broken (the other value is
/// set), or cells that both trials decide alike (they are set).
pub open spec fn placement_scan(b: &Board, s: Seq<u8>, depth: nat, cands: Seq<usize>, ci: int, nested: int) -> (Status, Seq<u8>, int)
    decreases depth, 1int, cands.len() - ci,
{
    if ci < 0 || ci >= cands.len() {
        (Status::Stopped, s, nested)
    } else {
        let cell = cands[ci] as int;
        if s[cell] != 0 {
            placement_scan(b, s, depth, cands, ci + 1, nested)
        } else {
            let p1 = propagation_spec(b, s.update(cell, 1), depth, nested);
            let p2 = propagation_spec(b, s.update(cell, 2), depth, p1.2);
            if p1.0 == Status::Broken && p2.0 == Status::Broken {
                (Status::Broken, s, p2.2)
            } else if p1.0 == Status::Broken {
                (Status::Completed, s.update(cell, 2), p2.2)
            } else if p2.0 == Status::Broken {
                (Status::Completed, s.update(cell, 1), p2.2)
            } else if exists|i: int| 0 <= i < s.len() && #[trigger] common_at(s, p1.1, p2.1, i) {
                (Status::Completed, merge_common(s, p1.1, p2.1), p2.2)
            } else {
                placement_scan(b, s, depth, cands, ci + 1, p2.2)
            }
        }
    }
}

/// The propagation of the trial board `s` at depth `depth`, `nested` being
/// the nested count before it: rounds of the numbered wall constraint, lamp
/// beams and only sources until the undecided cells stop changing; then,
/// from depth 1 and while cells remain undecided, a nested trial placement
/// of depth `depth - 1` (its conclusions and nested count are added,
/// saturating), starting over when it concludes. Its outcome (never
/// `Completed`), the board it settles on (when not `Broken`) and the nested
/// count after it.
pub open spec fn propagation_spec(b: &Board, s: Seq<u8>, depth: nat, nested: int) -> (Status, Seq<u8>, int)
    decreases depth, 0int, zeros(s),
{
    let r = trial_round(b, s);
    if r.0 {
        (Status::Broken, r.1, nested)
    } else if zeros(r.1) < zeros(s) {
        propagation_spec(b, r.1, depth, nested)
    } else if depth == 0 || zeros(r.1) == 0 {
        (Status::Stopped, r.1, nested)
    } else {
        let t = placement_spec(b, r.1, (depth - 1) as nat, 0);
        let nested2 = sat_add(nested, sat_add(concluded(t.0), t.2));
        if t.0 == Status::Completed && zeros(t.1) < zeros(s) {
            propagation_spec(b, t.1, depth, nested2)
        } else {
            (t.0, t.1, nested2)
        }
    }
}

/// Cells without candidates add nothing to the candidate list.
proof fn lemma_candidates_skip(b: &Board, s: Seq<u8>, a: int, c: int)
    requires
        0 <= a <= c,
        forall|j: int| a <= j < c ==> !#[trigger] is_candidate(b, s, j),
    ensures
        candidates_upto(b, s, c) == candidates_upto(b, s, a),
    decreases c - a,
{
    if c > a {
        lemma_candidates_skip(b, s, a, c - 1);
        assert(!is_candidate(b, s, c - 1));
    }
}

/// `s` with the cells below `k` that it leaves undecided and both trial
/// boards decide alike set to their value.
pub open spec fn merge_prefix(s: Seq<u8>, c1: Seq<u8>, c2: Seq<u8>, k: int) -> Seq<u8> {
    Seq::new(s.len(), |i: int| if i < k && common_at(s, c1, c2, i) { c1[i] } else { s[i] })
}

/// Trial placement: every trial candidate (an undecided cell next to a wall
/// or a decided cell, in cell order) is tried with a lamp and with no lamp,
/// each trial propagated by the numbered wall constraint, lamp beams and
/// only sources (and, while `depth >= 1`, by nested trials of depth
/// `depth - 1`). If both trials fail the board is contradictory; if one
/// fails the cell gets the other value; if both survive, the cells that
/// both decide alike are decided. Only the first candidate that concludes
/// anything counts; conclusions are tallied, techniques are not recorded.
pub fn trial_placement(model: &mut Model, tally: &mut TrialTally, depth: u32) -> (r: Status)
    requires
        old(model).wf(),
    ensures
        final(model).board == old(model).board,
        final(model).methods == old(model).methods,
        final(model).wf(),
        refines(final(model).state@, old(model).state@),
        sound_outcome(old(model).board, old(model).state@, final(model).state@, r),
        progress_outcome(old(model).state@, final(model).state@, r),
        final(tally).conclusions == sat_add(old(tally).conclusions as int, if r == Status::Completed { 1 } else { 0 }),
        final(tally).nested >= old(tally).nested,
        (r, final(model).state@, final(tally).nested as int) == placement_spec(
            old(model).board,
            old(model).state@,
            depth as nat,
            old(tally).nested as int,
        ),
    decreases depth, 1int,
{
    let ghost b = model.board;
    let ghost s0 = model.state@;
    let mut candidates: Vec<usize> = Vec::new();
    let mut cursor: usize = 0;
    loop
        invariant
            model.board == b,
            model.state@ == s0,
            model.wf(),
            cursor <= s0.len(),
            forall|q: int| 0 <= q < candidates@.len() ==> #[trigger] candidates@[q] < s0.len(),
            candidates@ == candidates_upto(b, s0, cursor as int),
        ensures
            candidates@ == candidates_upto(b, s0, s0.len() as int),
            forall|q: int| 0 <= q < candidates@.len() ==> #[trigger] candidates@[q] < s0.len(),
        decreases s0.len() - cursor,
    {
        match next_candidate(model.board, model.state.as_slice(), cursor) {
            Some(i) => {
                proof {
                    lemma_candidates_skip(b, s0, cursor as int, i as int);
                }
                candidates.push(i);
                cursor = i + 1;
            },
            None => {
                proof {
                    lemma_candidates_skip(b, s0, cursor as int, s0.len() as int);
                }
                break;
            },
        }
    }
    proof {
        lemma_refines_refl(s0);
        lemma_keeps_refl(b, s0);
    }
    if candidates.len() == 0 {
        return Status::Stopped;
    }
    let mut ci: usize = 0;
    while ci < candidates.len()
        invariant
            model.board == b,
            b == old(model).board,
            s0 == old(model).state@,
            model.methods == old(model).methods,
            model.state@ == s0,
            model.wf(),
            forall|q: int| 0 <= q < candidates@.len() ==> #[trigger] candidates@[q] < s0.len(),
            tally.conclusions == old(tally).conclusions,
            tally.nested >= old(tally).nested,
            candidates@ == candidates_upto(b, s0, s0.len() as int),
            ci <= candidates@.len(),
            placement_spec(b, s0, depth as nat, old(tally).nested as int)
                == placement_scan(b, s0, depth as nat, candidates@, ci as int, tally.nested as int),
        decreases candidates@.len() - ci,
    {
        let cell = candidates[ci];
        if model.state[cell] != 0 {
            ci += 1;
            continue;
        }
        let mut copy1 = model.state.clone();
        assert(copy1@ =~= s0);
        copy1.set(cell, 1);
        let ghost st1 = copy1@;
        proof {
            assert forall|x: int| 0 <= x < st1.len() implies #[trigger] st1[x] <= 2 by {
                assert(s0[x] <= 2);
            }
        }
        let ret1 = trial_propagate(model, &mut copy1, tally, depth);
        let mut copy2 = model.state.clone();
        assert(copy2@ =~= s0);
        copy2.set(cell, 2);
        let ghost st2 = copy2@;
        proof {
            assert forall|x: int| 0 <= x < st2.len() implies #[trigger] st2[x] <= 2 by {
                assert(s0[x] <= 2);
            }
        }
        let ret2 = trial_propagate(model, &mut copy2, tally, depth);
        let broken0 = ret1 == Status::Broken;
        let broken1 = ret2 == Status::Broken;
        if broken0 && broken1 {
            proof {
                assert forall|t: Seq<u8>| !#[trigger] solves(b, t, s0) by {
                    if solves(b, t, s0) {
                        assert(ext_cell(t[cell as int], s0[cell as int]));
                        if t[cell as int] == 1 {
                            lemma_solves_update(b, t, s0, cell as int, 1);
                        } else {
                            lemma_solves_update(b, t, s0, cell as int, 2);
                        }
                    }
                }
            }
            return Status::Broken;
        }
        if broken0 || broken1 {
            tally.conclusions = tally.conclusions.saturating_add(1);
            let value: u8 = if broken0 { 2 } else { 1 };
            proof {
                assert forall|t: Seq<u8>| #[trigger] solves(b, t, s0) implies t[cell as int] == value by {
                    assert(ext_cell(t[cell as int], s0[cell as int]));
                    if t[cell as int] != value {
                        lemma_solves_update(b, t, s0, cell as int, t[cell as int]);
                    }
                }
                lemma_set_forced(b, s0, s0, cell as int, value);
                lemma_zeros_update(s0, cell as int, value);
            }
            return model.apply_raw(cell, value);
        }
        let mut found = false;
        let mut result = Status::Stopped;
        let mut start: usize = 0;
        let n = model.state.len();
        loop
            invariant
                model.board == b,
                b == old(model).board,
                s0 == old(model).state@,
                model.methods == old(model).methods,
                model.wf(),
                n == s0.len(),
                copy1@.len() == n,
                copy2@.len() == n,
                cell < n,
                s0[cell as int] == 0,
                keeps_solutions(b, st1, copy1@),
                keeps_solutions(b, st2, copy2@),
                valid_state(copy1@),
                valid_state(copy2@),
                st1 == s0.update(cell as int, 1),
                st2 == s0.update(cell as int, 2),
                start <= n,
                keeps_solutions(b, s0, model.state@),
                refines(model.state@, s0),
                zeros(model.state@) <= zeros(s0),
                found ==> zeros(model.state@) < zeros(s0),
                found ==> result == Status::Completed,
                !found ==> model.state@ == s0 && result == Status::Stopped,
                tally.conclusions == old(tally).conclusions,
                tally.nested >= old(tally).nested,
                model.state@ == merge_prefix(s0, copy1@, copy2@, start as int),
                found == exists|i: int| 0 <= i < start && #[trigger] common_at(s0, copy1@, copy2@, i),
            ensures
                model.state@ == merge_common(s0, copy1@, copy2@),
                found == exists|i: int| 0 <= i < s0.len() && #[trigger] common_at(s0, copy1@, copy2@, i),
            decreases n - start,
        {
            let ghost cur = model.state@;
            proof {
                assert forall|i: int| start <= i < n implies #[trigger] common_at(cur, copy1@, copy2@, i) == common_at(s0, copy1@, copy2@, i) by {
                    assert(cur[i] == s0[i]);
                }
            }
            let (idx, value) = common_determined(model.state.as_slice(), copy1.as_slice(), copy2.as_slice(), start);
            if value == 3 {
                proof {
                    assert forall|i: int| start <= i < n implies !#[trigger] common_at(s0, copy1@, copy2@, i) by {
                        if common_at(s0, copy1@, copy2@, i) {
                            assert(common_at(cur, copy1@, copy2@, i));
                            assert(copy1@[i] <= 2);
                        }
                    }
                    assert(model.state@ =~= merge_common(s0, copy1@, copy2@));
                }
                break;
            }
            let ghost st = model.state@;
            proof {
                assert(st[idx as int] == 0);
                assert(copy1@[idx as int] == value && copy2@[idx as int] == value);
                assert(forced(b, s0, idx as int, value)) by {
                    assert forall|t: Seq<u8>| #[trigger] solves(b, t, s0) implies t[idx as int] == value by {
                        assert(ext_cell(t[cell as int], s0[cell as int]));
                        lemma_solves_update(b, t, s0, cell as int, t[cell as int]);
                        if t[cell as int] == 1 {
                            assert(extends(t, copy1@));
                            assert(ext_cell(t[idx as int], copy1@[idx as int]));
                        } else {
                            assert(extends(t, copy2@));
                            assert(ext_cell(t[idx as int], copy2@[idx as int]));
                        }
                    }
                }
                lemma_set_forced(b, s0, st, idx as int, value);
                lemma_zeros_update(st, idx as int, value);
            }
            found = true;
            let apply_ret = model.apply_raw(idx, value);
            if apply_ret == Status::Broken {
                result = Status::Broken;
            } else if apply_ret == Status::Completed {
                result = Status::Completed;
            }
            proof {
                assert(common_at(s0, copy1@, copy2@, idx as int));
                assert forall|i: int| start <= i < idx implies !#[trigger] common_at(s0, copy1@, copy2@, i) by {
                    assert(!common_at(cur, copy1@, copy2@, i));
                }
                assert(model.state@ =~= merge_prefix(s0, copy1@, copy2@, idx + 1));
            }
            start = idx + 1;
        }
        if found {
            tally.conclusions = tally.conclusions.saturating_add(1);
            return result;
        }
        ci += 1;
    }
    Status::Stopped
}

/// Propagates a trial copy with the numbered wall constraint, lamp beams and
/// only sources until its number of undecided cells is stable; then, while
/// `depth >= 1` and cells remain undecided, runs a nested trial placement of
/// depth `depth - 1` on it and starts over whenever that concludes.
fn trial_propagate(model: &Model, copy: &mut Vec<u8>, tally: &mut TrialTally, depth: u32) -> (r: Status)
    requires
        model.board.wf(),
        old(copy)@.len() == model.board.n(),
        valid_state(old(copy)@),
    ensures
        r != Status::Completed,
        r == Status::Broken ==> unsolvable(model.board, old(copy)@),
        r != Status::Broken ==> keeps_solutions(model.board, old(copy)@, final(copy)@),
        refines(final(copy)@, old(copy)@),
        final(copy)@.len() == old(copy)@.len(),
        valid_state(final(copy)@),
        final(tally).conclusions == old(tally).conclusions,
        final(tally).nested >= old(tally).nested,
        r == propagation_spec(model.board, old(copy)@, depth as nat, old(tally).nested as int).0,
        r != Status::Broken ==> final(copy)@ == propagation_spec(model.board, old(copy)@, depth as nat, old(tally).nested as int).1,
        final(tally).nested == propagation_spec(model.board, old(copy)@, depth as nat, old(tally).nested as int).2,
        r == Status::Stopped ==> trial_round(model.board, final(copy)@) == (false, final(copy)@),
        r == Status::Stopped && depth >= 1 ==> zeros(final(copy)@) == 0
            || placement_spec(model.board, final(copy)@, (depth - 1) as nat, 0).0 == Status::Stopped,
    decreases depth, 0int,
{
    let ghost b = model.board;
    let ghost s0 = copy@;
    let ghost spec0 = propagation_spec(b, s0, depth as nat, tally.nested as int);
    proof {
        lemma_keeps_refl(b, s0);
        lemma_refines_refl(s0);
    }
    loop
        invariant
            model.board == b,
            b.wf(),
            s0 == old(copy)@,
            copy@.len() == s0.len() == b.n(),
            valid_state(copy@),
            keeps_solutions(b, s0, copy@),
            refines(copy@, s0),
            tally.conclusions == old(tally).conclusions,
            tally.nested >= old(tally).nested,
            spec0 == propagation_spec(b, old(copy)@, depth as nat, old(tally).nested as int),
            spec0 == propagation_spec(b, copy@, depth as nat, tally.nested as int),
        decreases zeros(copy@),
    {
        let ghost c0 = copy@;
        let before = count_undecided(copy.as_slice());
        let mut st: Vec<u8> = Vec::new();
        std::mem::swap(&mut st, copy);
        let mut prop_model = Model { board: model.board, state: st, methods: Methods::new() };
        let neighbor_ret = clue_neighbors(&mut prop_model);
        let ghost c1 = prop_model.state@;
        let beam_ret = lamp_beam(&mut prop_model);
        let ghost c2 = prop_model.state@;
        let source_ret = unique_source(&mut prop_model);
        let ghost c3 = prop_model.state@;
        *copy = prop_model.state;
        proof {
            lemma_refines_trans(c2, c1, c0);
            lemma_refines_trans(c3, c2, c0);
            lemma_refines_trans(c3, c0, s0);
            lemma_refines_zeros(c3, c0);
            if neighbor_ret != Status::Broken && beam_ret != Status::Broken && source_ret != Status::Broken {
                assert(trial_round(b, c0) == (false, c3));
            } else {
                assert(trial_round(b, c0).0);
            }
        }
        if neighbor_ret == Status::Broken || beam_ret == Status::Broken || source_ret == Status::Broken {
            proof {
                if neighbor_ret == Status::Broken {
                    lemma_unsolvable_back(b, s0, c0);
                } else if beam_ret == Status::Broken {
                    lemma_unsolvable_back(b, c0, c1);
                    lemma_unsolvable_back(b, s0, c0);
                } else {
                    lemma_keeps_trans(b, c0, c1, c2);
                    lemma_unsolvable_back(b, c0, c2);
                    lemma_unsolvable_back(b, s0, c0);
                }
            }
            return Status::Broken;
        }
        proof {
            lemma_keeps_trans(b, c0, c1, c2);
            lemma_keeps_trans(b, c0, c2, c3);
            lemma_keeps_trans(b, s0, c0, c3);
        }
        let after = count_undecided(copy.as_slice());
        if before != after {
            continue;
        }
        assert(copy@ == c0);
        if depth == 0 {
            return Status::Stopped;
        }
        if after == 0 {
            return Status::Stopped;
        }
        let ghost c4 = copy@;
        let mut nested_tally = TrialTally::default();
        let mut st2: Vec<u8> = Vec::new();
        std::mem::swap(&mut st2, copy);
        let mut sub_model = Model { board: model.board, state: st2, methods: Methods::new() };
        let nested_ret = trial_placement(&mut sub_model, &mut nested_tally, depth - 1);
        *copy = sub_model.state;
        tally.nested = tally.nested.saturating_add(nested_tally.conclusions.saturating_add(nested_tally.nested));
        proof {
            if nested_ret == Status::Completed {
                lemma_refines_zeros(copy@, c4);
            }
        }
        if nested_ret == Status::Broken {
            proof {
                lemma_unsolvable_back(b, s0, c4);
            }
            return Status::Broken;
        }
        proof {
            lemma_keeps_trans(b, s0, c4, copy@);
            lemma_refines_trans(copy@, c4, s0);
        }
        if nested_ret == Status::Completed {
            continue;
        }
        return nested_ret;
    }
}

} // verus!
