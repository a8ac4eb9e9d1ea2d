use vstd::prelude::*;

use crate::answer_methods::{Methods, Technique};
use crate::answer_model::{
    apply_all, decisions_conflict, decisions_on_undecided, lemma_apply_all_broken, lemma_apply_all_entries, Model,
};
use crate::board::{count_of, is_consistent, Board};
use crate::rules::{
    ext_cell, extends, forced, keeps_solutions, lemma_keeps_refl, lemma_refines_refl,
    lemma_refines_zeros, lemma_set_forced, lemma_solvable_is_consistent, lemma_zeros_update,
    progress_outcome, refines, solves, sound_outcome, zeros,
};
use crate::techniques::Status;

verus! {

/// The entries of `cands` at the (increasing) positions `idx`.
pub open spec fn pick(cands: Seq<usize>, idx: Seq<int>) -> Seq<usize> {
    Seq::new(idx.len(), |q: int| cands[idx[q]])
}

/// The selections made by extending `cur` to `k` entries with entries of
/// `cands` at positions from `start` on, in increasing position order.
pub open spec fn combos_from(cands: Seq<usize>, k: nat, start: int, cur: Seq<usize>) -> Seq<Seq<usize>>
    decreases cands.len() - start, 1int,
{
    if cur.len() == k {
        seq![cur]
    } else {
        combos_loop(cands, k, start, cur)
    }
}

/// The selections extending `cur` whose next entry is at position `i` or later.
pub open spec fn combos_loop(cands: Seq<usize>, k: nat, i: int, cur: Seq<usize>) -> Seq<Seq<usize>>
    decreases cands.len() - i, 0int,
{
    if i < 0 || i >= cands.len() {
        Seq::empty()
    } else {
        combos_from(cands, k, i + 1, cur.push(cands[i])) + combos_loop(cands, k, i + 1, cur)
    }
}

/// `idx` is strictly increasing with entries in `lo..hi`.
pub open spec fn increasing_in(idx: Seq<int>, lo: int, hi: int) -> bool {
    &&& forall|q: int| 0 <= q < idx.len() ==> lo <= #[trigger] idx[q] < hi
    &&& forall|q1: int, q2: int| 0 <= q1 < q2 < idx.len() ==> #[trigger] idx[q1] < #[trigger] idx[q2]
}

/// Every selection of `k - cur.len()` positions from `start` on appears.
pub proof fn lemma_combos_complete(cands: Seq<usize>, k: nat, start: int, cur: Seq<usize>, idx: Seq<int>)
    requires
        0 <= start <= cands.len(),
        cur.len() + idx.len() == k,
        increasing_in(idx, start, cands.len() as int),
    ensures
        combos_from(cands, k, start, cur).contains(cur + pick(cands, idx)),
    decreases cands.len() - start, 1int,
{
    if idx.len() == 0 {
        assert(cur + pick(cands, idx) =~= cur);
        assert(combos_from(cands, k, start, cur)[0] == cur);
    } else {
        lemma_loop_complete(cands, k, start, cur, idx);
    }
}

/// Every selection whose next position is `i` or later appears.
pub proof fn lemma_loop_complete(cands: Seq<usize>, k: nat, i: int, cur: Seq<usize>, idx: Seq<int>)
    requires
        0 <= i <= cands.len(),
        idx.len() > 0,
        cur.len() + idx.len() == k,
        increasing_in(idx, i, cands.len() as int),
    ensures
        combos_loop(cands, k, i, cur).contains(cur + pick(cands, idx)),
    decreases cands.len() - i, 0int,
{
    assert(i <= idx[0] < cands.len());
    let target = cur + pick(cands, idx);
    let first = combos_from(cands, k, i + 1, cur.push(cands[i]));
    let rest = combos_loop(cands, k, i + 1, cur);
    assert(combos_loop(cands, k, i, cur) == first + rest);
    if idx[0] == i {
        let tail = idx.drop_first();
        assert(increasing_in(tail, i + 1, cands.len() as int)) by {
            assert forall|q: int| 0 <= q < tail.len() implies i + 1 <= #[trigger] tail[q] < cands.len() by {
                assert(idx[0] < idx[q + 1]);
            }
            assert forall|q1: int, q2: int| 0 <= q1 < q2 < tail.len() implies #[trigger] tail[q1] < #[trigger] tail[q2] by {
                assert(idx[q1 + 1] < idx[q2 + 1]);
            }
        }
        lemma_combos_complete(cands, k, i + 1, cur.push(cands[i]), tail);
        assert(cur.push(cands[i]) + pick(cands, tail) =~= target);
        let m = choose|m: int| 0 <= m < first.len() && first[m] == cur.push(cands[i]) + pick(cands, tail);
        assert((first + rest)[m] == target);
    } else {
        lemma_loop_complete(cands, k, i + 1, cur, idx);
        let m = choose|m: int| 0 <= m < rest.len() && rest[m] == target;
        assert((first + rest)[m + first.len()] == target);
    }
}

/// Every entry of every selection is an entry of `cur` or of `cands`.
pub proof fn lemma_combos_bounded(cands: Seq<usize>, k: nat, start: int, cur: Seq<usize>, bound: int)
    requires
        forall|q: int| 0 <= q < cands.len() ==> #[trigger] cands[q] < bound,
        forall|q: int| 0 <= q < cur.len() ==> #[trigger] cur[q] < bound,
    ensures
        forall|m: int, q: int| 0 <= m < combos_from(cands, k, start, cur).len() && 0 <= q < combos_from(cands, k, start, cur)[m].len()
            ==> #[trigger] combos_from(cands, k, start, cur)[m][q] < bound,
    decreases cands.len() - start, 1int,
{
    if cur.len() != k {
        lemma_loop_bounded(cands, k, start, cur, bound);
        assert(combos_from(cands, k, start, cur) == combos_loop(cands, k, start, cur));
    } else {
        let c = combos_from(cands, k, start, cur);
        assert(c == seq![cur]);
        assert forall|m: int, q: int| 0 <= m < c.len() && 0 <= q < c[m].len() implies #[trigger] c[m][q] < bound by {
            assert(c[m] == cur);
        }
    }
}

/// The selections whose next position is `i` or later hold entries below `bound`.
pub proof fn lemma_loop_bounded(cands: Seq<usize>, k: nat, i: int, cur: Seq<usize>, bound: int)
    requires
        forall|q: int| 0 <= q < cands.len() ==> #[trigger] cands[q] < bound,
        forall|q: int| 0 <= q < cur.len() ==> #[trigger] cur[q] < bound,
    ensures
        forall|m: int, q: int| 0 <= m < combos_loop(cands, k, i, cur).len() && 0 <= q < combos_loop(cands, k, i, cur)[m].len()
            ==> #[trigger] combos_loop(cands, k, i, cur)[m][q] < bound,
    decreases cands.len() - i, 0int,
{
    if 0 <= i < cands.len() {
        let c2 = cur.push(cands[i]);
        assert forall|q: int| 0 <= q < c2.len() implies #[trigger] c2[q] < bound by {
            if q < cur.len() {
                assert(c2[q] == cur[q]);
            }
        }
        lemma_combos_bounded(cands, k, i + 1, c2, bound);
        lemma_loop_bounded(cands, k, i + 1, cur, bound);
        let first = combos_from(cands, k, i + 1, c2);
        let rest = combos_loop(cands, k, i + 1, cur);
        assert forall|m: int, q: int| 0 <= m < (first + rest).len() && 0 <= q < (first + rest)[m].len()
            implies #[trigger] (first + rest)[m][q] < bound by {
            if m < first.len() {
                assert((first + rest)[m] == first[m]);
                assert(first[m][q] < bound);
            } else {
                assert((first + rest)[m] == rest[m - first.len()]);
                assert(rest[m - first.len()][q] < bound);
            }
        }
    }
}

/// The contents of a list of vectors.
pub open spec fn views(v: Seq<Vec<usize>>) -> Seq<Seq<usize>> {
    v.map_values(|x: Vec<usize>| x@)
}

/// Appends to `out` every extension of `current` to `k` entries of `cands`
/// from position `start` on, in increasing position order.
fn combinations_rec(cands: &Vec<usize>, k: usize, start: usize, current: &mut Vec<usize>, out: &mut Vec<Vec<usize>>)
    requires
        old(current)@.len() <= k,
        start <= cands@.len(),
    ensures
        final(current)@ == old(current)@,
        views(final(out)@) == views(old(out)@) + combos_from(cands@, k as nat, start as int, old(current)@),
    decreases cands@.len() - start,
{
    let ghost out0 = views(out@);
    let ghost cur = current@;
    if current.len() == k {
        let mut copy: Vec<usize> = Vec::new();
        let mut q: usize = 0;
        while q < current.len()
            invariant
                q <= current@.len(),
                copy@ == current@.take(q as int),
            decreases current@.len() - q,
        {
            copy.push(current[q]);
            q += 1;
            assert(copy@ =~= current@.take(q as int));
        }
        assert(copy@ =~= current@);
        out.push(copy);
        assert(views(out@) =~= out0 + combos_from(cands@, k as nat, start as int, cur));
        return;
    }
    let mut i = start;
    assert(views(out@) + combos_loop(cands@, k as nat, i as int, cur) =~= out0 + combos_from(cands@, k as nat, start as int, cur));
    while i < cands.len()
        invariant
            start <= i <= cands@.len(),
            cur.len() < k,
            current@ == cur,
            views(out@) + combos_loop(cands@, k as nat, i as int, cur) == out0 + combos_from(cands@, k as nat, start as int, cur),
        decreases cands@.len() - i,
    {
        let ghost before = views(out@);
        current.push(cands[i]);
        combinations_rec(cands, k, i + 1, current, out);
        current.pop();
        proof {
            assert(current@ =~= cur);
            assert(combos_loop(cands@, k as nat, i as int, cur) == combos_from(cands@, k as nat, i + 1, cur.push(cands@[i as int]))
                + combos_loop(cands@, k as nat, i + 1, cur));
            assert(views(out@) + combos_loop(cands@, k as nat, i + 1, cur) =~= before + combos_loop(cands@, k as nat, i as int, cur));
        }
        i += 1;
    }
    assert(combos_loop(cands@, k as nat, i as int, cur) =~= Seq::<Seq<usize>>::empty());
    assert(views(out@) =~= out0 + combos_from(cands@, k as nat, start as int, cur));
}

/// All selections of `k` entries of `cands`, in increasing position order.
fn combinations(cands: &Vec<usize>, k: usize) -> (out: Vec<Vec<usize>>)
    ensures
        views(out@) == combos_from(cands@, k as nat, 0, Seq::empty()),
{
    let mut out: Vec<Vec<usize>> = Vec::new();
    let mut current: Vec<usize> = Vec::new();
    combinations_rec(cands, k, 0, &mut current, &mut out);
    assert(views(out@) =~= combos_from(cands@, k as nat, 0, Seq::empty()));
    out
}


/// The undecided cells of `s` among `nb`, in order.
pub open spec fn zeros_of(s: Seq<u8>, nb: Seq<usize>) -> Seq<usize>
    decreases nb.len(),
{
    if nb.len() == 0 {
        Seq::empty()
    } else {
        let p = zeros_of(s, nb.drop_last());
        if s[nb.last() as int] == 0 {
            p.push(nb.last())
        } else {
            p
        }
    }
}

/// The positions in `cands` where `t` holds a lamp, in order.
pub open spec fn lamp_idx(t: Seq<u8>, cands: Seq<usize>) -> Seq<int>
    decreases cands.len(),
{
    if cands.len() == 0 {
        Seq::empty()
    } else {
        let p = lamp_idx(t, cands.drop_last());
        if t[cands.last() as int] == 1 {
            p.push(cands.len() - 1)
        } else {
            p
        }
    }
}

/// The undecided cells of a list are cells of the board, undecided.
pub proof fn lemma_zeros_of_elems(s: Seq<u8>, nb: Seq<usize>)
    requires
        forall|k: int| 0 <= k < nb.len() ==> #[trigger] nb[k] < s.len(),
    ensures
        forall|q: int| 0 <= q < zeros_of(s, nb).len() ==> #[trigger] zeros_of(s, nb)[q] < s.len() && s[zeros_of(s, nb)[q] as int] == 0,
    decreases nb.len(),
{
    if nb.len() > 0 {
        let p = nb.drop_last();
        assert forall|k: int| 0 <= k < p.len() implies #[trigger] p[k] < s.len() by {
            assert(nb[k] < s.len());
        }
        lemma_zeros_of_elems(s, p);
        assert(nb[nb.len() - 1] < s.len());
        let zp = zeros_of(s, p);
        let z = zeros_of(s, nb);
        assert forall|q: int| 0 <= q < z.len() implies #[trigger] z[q] < s.len() && s[z[q] as int] == 0 by {
            if q < zp.len() {
                assert(z[q] == zp[q]);
            }
        }
    }
}

/// The lamps of a solution among a list: those already placed, and those on
/// the undecided cells of the list.
pub proof fn lemma_zeros_of(t: Seq<u8>, s: Seq<u8>, nb: Seq<usize>)
    requires
        extends(t, s),
        forall|k: int| 0 <= k < nb.len() ==> #[trigger] nb[k] < s.len(),
    ensures
        count_of(t, nb, 1) == count_of(s, nb, 1) + count_of(t, zeros_of(s, nb), 1),
        forall|q: int| 0 <= q < zeros_of(s, nb).len() ==> #[trigger] zeros_of(s, nb)[q] < s.len() && s[zeros_of(s, nb)[q] as int] == 0,
    decreases nb.len(),
{
    lemma_zeros_of_elems(s, nb);
    if nb.len() > 0 {
        let p = nb.drop_last();
        assert forall|k: int| 0 <= k < p.len() implies #[trigger] p[k] < s.len() by {
            assert(nb[k] < s.len());
        }
        lemma_zeros_of(t, s, p);
        let x = nb.last() as int;
        assert(nb[nb.len() - 1] < s.len());
        assert(ext_cell(t[x], s[x]));
        let zp = zeros_of(s, p);
        if s[x] == 0 {
            assert(zeros_of(s, nb).drop_last() =~= zp);
            assert(zeros_of(s, nb).last() == nb.last());
        }
    }
}

/// The lamp positions of `t` in `cands` increase, count its lamps there and
/// point at lamps.
pub proof fn lemma_lamp_idx(t: Seq<u8>, cands: Seq<usize>)
    ensures
        increasing_in(lamp_idx(t, cands), 0, cands.len() as int),
        lamp_idx(t, cands).len() == count_of(t, cands, 1),
        forall|q: int| 0 <= q < lamp_idx(t, cands).len() ==> t[cands[#[trigger] lamp_idx(t, cands)[q]] as int] == 1,
        forall|p: int| 0 <= p < cands.len() && t[#[trigger] cands[p] as int] == 1 ==> exists|q: int| 0 <= q < lamp_idx(t, cands).len() && lamp_idx(t, cands)[q] == p,
    decreases cands.len(),
{
    if cands.len() > 0 {
        let c2 = cands.drop_last();
        lemma_lamp_idx(t, c2);
        let li = lamp_idx(t, cands);
        let lp = lamp_idx(t, c2);
        assert forall|q: int| 0 <= q < lp.len() implies t[cands[#[trigger] lp[q]] as int] == 1 by {
            assert(t[c2[lp[q]] as int] == 1);
        }
        if t[cands.last() as int] == 1 {
            assert(li == lp.push(cands.len() - 1));
            assert forall|p: int| 0 <= p < cands.len() && t[#[trigger] cands[p] as int] == 1 implies exists|q: int| 0 <= q < li.len() && li[q] == p by {
                if p == cands.len() - 1 {
                    assert(li[lp.len() as int] == p);
                } else {
                    assert(c2[p] == cands[p]);
                    let q = choose|q: int| 0 <= q < lp.len() && lp[q] == p;
                    assert(li[q] == p);
                }
            }
        } else {
            assert forall|p: int| 0 <= p < cands.len() && t[#[trigger] cands[p] as int] == 1 implies exists|q: int| 0 <= q < li.len() && li[q] == p by {
                assert(p != cands.len() - 1);
                assert(c2[p] == cands[p]);
            }
        }
    }
}

/// Cell `i` lies in the beam of a lamp of `combo`.
pub open spec fn combo_beams(b: &Board, combo: Seq<usize>, i: int) -> bool {
    exists|q: int, kk: int|
        0 <= q < combo.len() && 0 <= kk < b.beam(combo[q] as int).len() && #[trigger] b.beam(combo[q] as int)[kk] == i
}

/// The trial board of a lamp selection around a numbered wall: the
/// candidates of `combo` get lamps, the other candidates none, and the
/// undecided cells in the beams of the new lamps none.
pub open spec fn combo_copy(b: &Board, s: Seq<u8>, cands: Seq<usize>, combo: Seq<usize>) -> Seq<u8> {
    Seq::new(s.len(), |i: int|
        if cands.contains(i as usize) {
            if combo.contains(i as usize) { 1u8 } else { 2u8 }
        } else if s[i] == 0 && combo_beams(b, combo, i) {
            2u8
        } else {
            s[i]
        })
}

/// A solution agrees with the trial board of its own lamp selection.
pub proof fn lemma_copy_extends(b: &Board, t: Seq<u8>, s: Seq<u8>, cands: Seq<usize>)
    requires
        b.wf(),
        s.len() == b.n(),
        solves(b, t, s),
        forall|q: int| 0 <= q < cands.len() ==> #[trigger] cands[q] < s.len() && s[cands[q] as int] == 0,
    ensures
        extends(t, combo_copy(b, s, cands, pick(cands, lamp_idx(t, cands)))),
{
    lemma_lamp_idx(t, cands);
    let idx = lamp_idx(t, cands);
    let combo = pick(cands, idx);
    let cp = combo_copy(b, s, cands, combo);
    assert forall|i: int| 0 <= i < cp.len() implies ext_cell(t[i], cp[i]) by {
        assert(ext_cell(t[i], s[i]));
        if cands.contains(i as usize) {
            let p = choose|p: int| 0 <= p < cands.len() && cands[p] == i as usize;
            assert(s[cands[p] as int] == 0);
            if combo.contains(i as usize) {
                let q = choose|q: int| 0 <= q < combo.len() && combo[q] == i as usize;
                assert(t[cands[idx[q]] as int] == 1);
            } else {
                if t[i] == 1 {
                    assert(t[cands[p] as int] == 1);
                    let q = choose|q: int| 0 <= q < idx.len() && idx[q] == p;
                    assert(combo[q] == i as usize);
                }
            }
        } else if s[i] == 0 && combo_beams(b, combo, i) {
            let (q, kk) = choose|q: int, kk: int|
                0 <= q < combo.len() && 0 <= kk < b.beam(combo[q] as int).len() && #[trigger] b.beam(combo[q] as int)[kk] == i;
            let l = combo[q] as int;
            assert(t[cands[idx[q]] as int] == 1);
            assert(t[l] == 1);
            assert(t[b.beam(l)[kk] as int] != 1);
        }
    }
}

/// The trial board of lamp selection `combo` passes the consistency test.
pub open spec fn combo_valid(b: &Board, s: Seq<u8>, cands: Seq<usize>, combo: Seq<usize>) -> bool {
    b.is_consistent_spec(combo_copy(b, s, cands, combo))
}

/// What numbered wall `k` decides about cell `i` of `s`. The wall is
/// analysed when it lacks `need` lamps with `0 < need <` its undecided
/// neighbours `cands`; then, if some selection of `need` candidates is
/// valid and cell `i` is undecided, the value that all valid selections
/// give cell `i`, if they agree (a lamp is checked first).
pub open spec fn wall_verdict(b: &Board, s: Seq<u8>, k: int, i: int) -> Option<u8> {
    let nb = b.nbrs(b.wall_cell(k));
    let cands = zeros_of(s, nb);
    let placed = count_of(s, nb, 1);
    let need = b.wall_digit(k) - placed;
    let combos = combos_from(cands, need as nat, 0, Seq::empty());
    if placed > b.wall_digit(k) || need == 0 || need >= cands.len() || s[i] != 0 || !(exists|m: int|
        0 <= m < combos.len() && #[trigger] combo_valid(b, s, cands, combos[m])) {
        None
    } else if forall|m: int| 0 <= m < combos.len() && #[trigger] combo_valid(b, s, cands, combos[m])
        ==> combo_copy(b, s, cands, combos[m])[i] == 1 {
        Some(1u8)
    } else if forall|m: int| 0 <= m < combos.len() && #[trigger] combo_valid(b, s, cands, combos[m])
        ==> combo_copy(b, s, cands, combos[m])[i] == 2 {
        Some(2u8)
    } else {
        None
    }
}

/// The decisions of wall `k` about cells `0..i`, in cell order.
pub open spec fn wall_decisions(b: &Board, s: Seq<u8>, k: int, i: int) -> Seq<(usize, u8)>
    decreases i,
{
    if i <= 0 {
        Seq::empty()
    } else {
        let prev = wall_decisions(b, s, k, i - 1);
        match wall_verdict(b, s, k, i - 1) {
            Some(v) => prev.push(((i - 1) as usize, v)),
            None => prev,
        }
    }
}

/// The decisions of walls `0..w`, wall after wall.
pub open spec fn clue_decisions(b: &Board, s: Seq<u8>, w: int) -> Seq<(usize, u8)>
    decreases w,
{
    if w <= 0 {
        Seq::empty()
    } else {
        clue_decisions(b, s, w - 1) + wall_decisions(b, s, w - 1, s.len() as int)
    }
}

/// The decisions of wall `k` about cells `0..i` are its verdicts there.
proof fn lemma_wall_decisions_entries(b: &Board, s: Seq<u8>, k: int, i: int)
    requires
        0 <= i <= s.len(),
        s.len() <= usize::MAX,
    ensures
        forall|q: int| 0 <= q < wall_decisions(b, s, k, i).len() ==> {
            &&& 0 <= (#[trigger] wall_decisions(b, s, k, i)[q]).0 < i
            &&& wall_verdict(b, s, k, wall_decisions(b, s, k, i)[q].0 as int) == Some(wall_decisions(b, s, k, i)[q].1)
        },
        forall|x: int| 0 <= x < i && (#[trigger] wall_verdict(b, s, k, x)) is Some ==> exists|q: int|
            0 <= q < wall_decisions(b, s, k, i).len() && (#[trigger] wall_decisions(b, s, k, i)[q]).0 == x,
    decreases i,
{
    if i > 0 {
        lemma_wall_decisions_entries(b, s, k, i - 1);
        let prev = wall_decisions(b, s, k, i - 1);
        let cur = wall_decisions(b, s, k, i);
        match wall_verdict(b, s, k, i - 1) {
            Some(v) => {
                assert(cur == prev.push(((i - 1) as usize, v)));
                assert(cur[prev.len() as int].0 == i - 1);
            },
            None => {
                assert(cur == prev);
            },
        }
        assert forall|q: int| 0 <= q < cur.len() implies {
            &&& 0 <= (#[trigger] cur[q]).0 < i
            &&& wall_verdict(b, s, k, cur[q].0 as int) == Some(cur[q].1)
        } by {
            if q < prev.len() {
                assert(cur[q] == prev[q]);
            }
        }
        assert forall|x: int| 0 <= x < i && (#[trigger] wall_verdict(b, s, k, x)) is Some implies exists|q: int|
            0 <= q < cur.len() && (#[trigger] cur[q]).0 == x by {
            if x < i - 1 {
                let q = choose|q: int| 0 <= q < prev.len() && (#[trigger] prev[q]).0 == x;
                assert(cur[q] == prev[q]);
            } else {
                assert(cur[prev.len() as int].0 == x);
            }
        }
    }
}

/// One of the walls `0..w` decides cell `i`, to `v`.
pub open spec fn decided_below(b: &Board, s: Seq<u8>, w: int, i: int, v: u8) -> bool {
    exists|k: int| 0 <= k < w && #[trigger] wall_verdict(b, s, k, i) == Some(v)
}

/// The decisions of walls `0..w` are exactly the verdicts of those walls.
proof fn lemma_clue_decisions_entries(b: &Board, s: Seq<u8>, w: int)
    requires
        s.len() <= usize::MAX,
    ensures
        forall|q: int| 0 <= q < clue_decisions(b, s, w).len() ==> {
            &&& 0 <= (#[trigger] clue_decisions(b, s, w)[q]).0 < s.len()
            &&& decided_below(b, s, w, clue_decisions(b, s, w)[q].0 as int, clue_decisions(b, s, w)[q].1)
        },
        forall|k: int, x: int| 0 <= k < w && 0 <= x < s.len() && (#[trigger] wall_verdict(b, s, k, x)) is Some ==> exists|q: int|
            0 <= q < clue_decisions(b, s, w).len() && (#[trigger] clue_decisions(b, s, w)[q]) == (x as usize, wall_verdict(b, s, k, x)->0),
    decreases w,
{
    if w > 0 {
        lemma_clue_decisions_entries(b, s, w - 1);
        lemma_wall_decisions_entries(b, s, w - 1, s.len() as int);
        let prev = clue_decisions(b, s, w - 1);
        let wd = wall_decisions(b, s, w - 1, s.len() as int);
        let cur = clue_decisions(b, s, w);
        assert(cur == prev + wd);
        assert forall|q: int| 0 <= q < cur.len() implies {
            &&& 0 <= (#[trigger] cur[q]).0 < s.len()
            &&& decided_below(b, s, w, cur[q].0 as int, cur[q].1)
        } by {
            if q < prev.len() {
                assert(cur[q] == prev[q]);
                assert(decided_below(b, s, w - 1, prev[q].0 as int, prev[q].1));
                let k = choose|k: int| 0 <= k < w - 1 && #[trigger] wall_verdict(b, s, k, prev[q].0 as int) == Some(prev[q].1);
                assert(wall_verdict(b, s, k, cur[q].0 as int) == Some(cur[q].1));
            } else {
                assert(cur[q] == wd[q - prev.len()]);
                assert(wall_verdict(b, s, w - 1, cur[q].0 as int) == Some(cur[q].1));
            }
        }
        assert forall|k: int, x: int| 0 <= k < w && 0 <= x < s.len() && (#[trigger] wall_verdict(b, s, k, x)) is Some implies exists|q: int|
            0 <= q < cur.len() && (#[trigger] cur[q]) == (x as usize, wall_verdict(b, s, k, x)->0) by {
            if k < w - 1 {
                let q = choose|q: int| 0 <= q < prev.len() && (#[trigger] prev[q]) == (x as usize, wall_verdict(b, s, k, x)->0);
                assert(cur[q] == prev[q]);
            } else {
                let q = choose|q: int| 0 <= q < wd.len() && (#[trigger] wd[q]).0 == x;
                assert(cur[prev.len() + q] == wd[q]);
                assert(wall_verdict(b, s, k, wd[q].0 as int) == Some(wd[q].1));
            }
        }
    }
}

/// Some analysed wall decides cell `i`, to `v`.
pub open spec fn some_wall_decides(b: &Board, s: Seq<u8>, i: int, v: u8) -> bool {
    decided_below(b, s, b.walls@.len() as int, i, v)
}

/// Clue case analysis unites the verdicts of all numbered walls: it breaks
/// exactly when two walls decide a cell differently; otherwise every cell
/// that some wall decides gets that value, every other cell keeps its value,
/// and it completes exactly when some wall decides something.
pub proof fn lemma_clue_case_verdicts(b: &Board, s: Seq<u8>)
    requires
        b.wf(),
        s.len() == b.n(),
    ensures
        ({
            let res = apply_all(s, clue_decisions(b, s, b.walls@.len() as int));
            &&& res.1.len() == s.len()
            &&& (res.0 == Status::Broken) == exists|i: int| 0 <= i < s.len() && #[trigger] some_wall_decides(b, s, i, 1) && some_wall_decides(b, s, i, 2)
            &&& res.0 != Status::Broken ==> forall|k: int, i: int|
                0 <= k < b.walls@.len() && 0 <= i < s.len() && (#[trigger] wall_verdict(b, s, k, i)) is Some
                    ==> res.1[i] == wall_verdict(b, s, k, i)->0
            &&& res.0 != Status::Broken ==> forall|i: int| 0 <= i < s.len() && #[trigger] res.1[i] != s[i] ==> some_wall_decides(b, s, i, res.1[i])
            &&& (res.0 == Status::Completed) == (res.0 != Status::Broken
                && exists|k: int, i: int| 0 <= k < b.walls@.len() && 0 <= i < s.len() && (#[trigger] wall_verdict(b, s, k, i)) is Some)
        }),
{
    let nw = b.walls@.len() as int;
    let list = clue_decisions(b, s, nw);
    lemma_clue_decisions_entries(b, s, nw);
    assert forall|q: int| 0 <= q < list.len() implies {
        &&& (#[trigger] list[q]).0 < s.len()
        &&& s[list[q].0 as int] == 0
        &&& list[q].1 != 0
    } by {
        assert(decided_below(b, s, nw, list[q].0 as int, list[q].1));
    }
    assert(decisions_on_undecided(s, list));
    lemma_apply_all_entries(s, list);
    let res = apply_all(s, list);
    lemma_clue_conflict(b, s);
    if res.0 != Status::Broken {
        assert forall|k: int, i: int|
            0 <= k < nw && 0 <= i < s.len() && (#[trigger] wall_verdict(b, s, k, i)) is Some
                implies res.1[i] == wall_verdict(b, s, k, i)->0 by {
            let q = choose|q: int| 0 <= q < list.len() && (#[trigger] list[q]) == (i as usize, wall_verdict(b, s, k, i)->0);
            assert(res.1[list[q].0 as int] == list[q].1);
        }
        assert forall|i: int| 0 <= i < s.len() && #[trigger] res.1[i] != s[i] implies some_wall_decides(b, s, i, res.1[i]) by {
            let q = choose|q: int| 0 <= q < list.len() && (#[trigger] list[q]).0 == i && list[q].1 == res.1[i];
            assert(decided_below(b, s, nw, list[q].0 as int, list[q].1));
        }
    }
    if list.len() > 0 {
        assert(decided_below(b, s, nw, list[0].0 as int, list[0].1));
        let k = choose|k: int| 0 <= k < nw && #[trigger] wall_verdict(b, s, k, list[0].0 as int) == Some(list[0].1);
        assert((wall_verdict(b, s, k, list[0].0 as int)) is Some);
    }
    if exists|k: int, i: int| 0 <= k < nw && 0 <= i < s.len() && (#[trigger] wall_verdict(b, s, k, i)) is Some {
        let (k, i) = choose|k: int, i: int| 0 <= k < nw && 0 <= i < s.len() && (#[trigger] wall_verdict(b, s, k, i)) is Some;
        let q = choose|q: int| 0 <= q < list.len() && (#[trigger] list[q]) == (i as usize, wall_verdict(b, s, k, i)->0);
    }
}

/// The clue decisions disagree on a cell exactly when two walls decide it
/// differently.
proof fn lemma_clue_conflict(b: &Board, s: Seq<u8>)
    requires
        s.len() <= usize::MAX,
    ensures
        decisions_conflict(clue_decisions(b, s, b.walls@.len() as int))
            == exists|i: int| 0 <= i < s.len() && #[trigger] some_wall_decides(b, s, i, 1) && some_wall_decides(b, s, i, 2),
{
    let nw = b.walls@.len() as int;
    let list = clue_decisions(b, s, nw);
    lemma_clue_decisions_entries(b, s, nw);
    if decisions_conflict(list) {
        let (p, q) = choose|p: int, q: int| 0 <= p < q < list.len() && #[trigger] list[p].0 == #[trigger] list[q].0 && list[p].1 != list[q].1;
        assert(decided_below(b, s, nw, list[p].0 as int, list[p].1));
        assert(decided_below(b, s, nw, list[q].0 as int, list[q].1));
        let kp = choose|k: int| 0 <= k < nw && #[trigger] wall_verdict(b, s, k, list[p].0 as int) == Some(list[p].1);
        let kq = choose|k: int| 0 <= k < nw && #[trigger] wall_verdict(b, s, k, list[q].0 as int) == Some(list[q].1);
        let i = list[p].0 as int;
        assert(list[p].1 == 1 || list[p].1 == 2);
        assert(list[q].1 == 1 || list[q].1 == 2);
        assert(some_wall_decides(b, s, i, 1) && some_wall_decides(b, s, i, 2));
    }
    if exists|i: int| 0 <= i < s.len() && #[trigger] some_wall_decides(b, s, i, 1) && some_wall_decides(b, s, i, 2) {
        let i = choose|i: int| 0 <= i < s.len() && #[trigger] some_wall_decides(b, s, i, 1) && some_wall_decides(b, s, i, 2);
        let k1 = choose|k: int| 0 <= k < nw && #[trigger] wall_verdict(b, s, k, i) == Some(1u8);
        let k2 = choose|k: int| 0 <= k < nw && #[trigger] wall_verdict(b, s, k, i) == Some(2u8);
        let q1 = choose|q: int| 0 <= q < list.len() && (#[trigger] list[q]) == (i as usize, wall_verdict(b, s, k1, i)->0);
        let q2 = choose|q: int| 0 <= q < list.len() && (#[trigger] list[q]) == (i as usize, wall_verdict(b, s, k2, i)->0);
        if q1 < q2 {
            assert(list[q1].0 == list[q2].0 && list[q1].1 != list[q2].1);
        } else {
            assert(list[q2].0 == list[q1].0 && list[q2].1 != list[q1].1);
        }
    }
}

/// The verdict of an analysed wall with a valid selection, in the terms of
/// its candidates `cands`, missing lamps `need` and selections `combos`.
proof fn lemma_wall_verdict(b: &Board, s: Seq<u8>, k: int, i: int, cands: Seq<usize>, need: int, combos: Seq<Seq<usize>>)
    requires
        cands == zeros_of(s, b.nbrs(b.wall_cell(k))),
        count_of(s, b.nbrs(b.wall_cell(k)), 1) + need == b.wall_digit(k),
        0 < need < cands.len(),
        combos == combos_from(cands, need as nat, 0, Seq::empty()),
        exists|m: int| 0 <= m < combos.len() && #[trigger] combo_valid(b, s, cands, combos[m]),
        s[i] == 0,
    ensures
        wall_verdict(b, s, k, i) == (if forall|m: int| 0 <= m < combos.len() && #[trigger] combo_valid(b, s, cands, combos[m])
            ==> combo_copy(b, s, cands, combos[m])[i] == 1 {
            Some(1u8)
        } else if forall|m: int| 0 <= m < combos.len() && #[trigger] combo_valid(b, s, cands, combos[m])
            ==> combo_copy(b, s, cands, combos[m])[i] == 2 {
            Some(2u8)
        } else {
            None
        }),
{
}

/// A wall without verdicts decides nothing.
proof fn lemma_wall_decisions_none(b: &Board, s: Seq<u8>, k: int, i: int)
    requires
        forall|j: int| 0 <= j < i ==> #[trigger] wall_verdict(b, s, k, j) is None,
    ensures
        wall_decisions(b, s, k, i) == Seq::<(usize, u8)>::empty(),
    decreases i,
{
    if i > 0 {
        lemma_wall_decisions_none(b, s, k, i - 1);
        assert(wall_verdict(b, s, k, i - 1) is None);
    }
}

/// If every valid lamp selection around wall `k` gives cell `i` the value
/// `v`, every solution gives it `v`.
pub proof fn lemma_wall_forced(b: &Board, s: Seq<u8>, k: int, cands: Seq<usize>, need: nat, combos: Seq<Seq<usize>>, i: int, v: u8)
    requires
        b.wf(),
        s.len() == b.n(),
        0 <= k < b.walls@.len(),
        cands == zeros_of(s, b.nbrs(b.wall_cell(k))),
        count_of(s, b.nbrs(b.wall_cell(k)), 1) + need == b.wall_digit(k),
        combos == combos_from(cands, need, 0, Seq::empty()),
        0 <= i < s.len(),
        v != 0,
        forall|m: int| 0 <= m < combos.len() && combo_valid(b, s, cands, #[trigger] combos[m]) ==> combo_copy(b, s, cands, combos[m])[i] == v,
    ensures
        forced(b, s, i, v),
{
    let nb = b.nbrs(b.wall_cell(k));
    assert(0 <= b.wall_cell(k) < b.n());
    assert forall|q: int| 0 <= q < nb.len() implies #[trigger] nb[q] < s.len() by {}
    assert forall|t: Seq<u8>| #[trigger] solves(b, t, s) implies t[i] == v by {
        lemma_zeros_of(t, s, nb);
        lemma_lamp_idx(t, cands);
        assert(count_of(t, b.nbrs(b.wall_cell(k)), 1) == b.wall_digit(k));
        let idx = lamp_idx(t, cands);
        lemma_combos_complete(cands, need, 0, Seq::empty(), idx);
        let combo = pick(cands, idx);
        assert(Seq::<usize>::empty() + combo =~= combo);
        let m = choose|m: int| 0 <= m < combos.len() && combos[m] == combo;
        lemma_copy_extends(b, t, s, cands);
        let cp = combo_copy(b, s, cands, combo);
        assert(solves(b, t, cp));
        lemma_solvable_is_consistent(b, cp, t);
        assert(combo_valid(b, s, cands, combos[m]));
        assert(ext_cell(t[i], cp[i]));
    }
}

/// Counts the lamps around `cell` and lists its undecided neighbours.
fn wall_candidates(board: &Board, state: &Vec<u8>, cell: usize) -> (r: (u32, Vec<usize>))
    requires
        board.wf(),
        state@.len() == board.n(),
        cell < board.n(),
    ensures
        r.0 == count_of(state@, board.nbrs(cell as int), 1),
        r.1@ == zeros_of(state@, board.nbrs(cell as int)),
        r.0 <= 4,
        r.1@.len() <= 4,
{
    let nb = &board.neighbors[cell];
    assert(nb@ == board.nbrs(cell as int));
    let mut placed: u32 = 0;
    let mut cands: Vec<usize> = Vec::new();
    let mut k: usize = 0;
    while k < nb.len()
        invariant
            board.wf(),
            state@.len() == board.n(),
            cell < board.n(),
            nb@ == board.nbrs(cell as int),
            nb@.len() <= 4,
            k <= nb@.len(),
            placed + cands@.len() <= k,
            placed == count_of(state@, nb@.take(k as int), 1),
            cands@ == zeros_of(state@, nb@.take(k as int)),
        decreases nb@.len() - k,
    {
        let c = nb[k];
        assert(nb@.take(k + 1).drop_last() =~= nb@.take(k as int));
        if state[c] == 1 {
            placed += 1;
        } else if state[c] == 0 {
            cands.push(c);
        }
        k += 1;
    }
    assert(nb@.take(k as int) =~= nb@);
    (placed, cands)
}

/// Whether `x` is an entry of `v`.
fn contains_cell(v: &Vec<usize>, x: usize) -> (r: bool)
    ensures
        r == v@.contains(x),
{
    let mut q: usize = 0;
    while q < v.len()
        invariant
            q <= v@.len(),
            forall|qq: int| 0 <= qq < q ==> v@[qq] != x,
        decreases v@.len() - q,
    {
        if v[q] == x {
            return true;
        }
        q += 1;
    }
    false
}

/// Builds the trial board of lamp selection `combo` on `entry`.
fn build_copy(board: &Board, entry: &Vec<u8>, cands: &Vec<usize>, combo: &Vec<usize>) -> (copy: Vec<u8>)
    requires
        board.wf(),
        entry@.len() == board.n(),
        forall|q: int| 0 <= q < cands@.len() ==> #[trigger] cands@[q] < board.n(),
        forall|q: int| 0 <= q < combo@.len() ==> #[trigger] combo@[q] < board.n(),
    ensures
        copy@ == combo_copy(board, entry@, cands@, combo@),
{
    let n = entry.len();
    let mut copy: Vec<u8> = Vec::new();
    let mut i: usize = 0;
    while i < n
        invariant
            n == entry@.len(),
            i <= n,
            copy@ == entry@.take(i as int),
        decreases n - i,
    {
        copy.push(entry[i]);
        i += 1;
        assert(copy@ =~= entry@.take(i as int));
    }
    assert(copy@ =~= entry@);
    let mut p: usize = 0;
    while p < cands.len()
        invariant
            board.wf(),
            n == entry@.len() == board.n(),
            forall|q: int| 0 <= q < cands@.len() ==> #[trigger] cands@[q] < board.n(),
            p <= cands@.len(),
            copy@ == Seq::new(n as nat, |j: int| if cands@.take(p as int).contains(j as usize) {
                if combo@.contains(j as usize) { 1u8 } else { 2u8 }
            } else {
                entry@[j]
            }),
        decreases cands@.len() - p,
    {
        let c = cands[p];
        let inside = contains_cell(combo, c);
        let value: u8 = if inside { 1 } else { 2 };
        copy.set(c, value);
        proof {
            assert forall|j: int| 0 <= j < n implies (#[trigger] cands@.take(p + 1).contains(j as usize) <==> (cands@.take(p as int).contains(j as usize) || j == c)) by {
                if cands@.take(p + 1).contains(j as usize) {
                    let m = choose|m: int| 0 <= m < p + 1 && #[trigger] cands@.take(p + 1)[m] == j as usize;
                    if m < p {
                        assert(cands@.take(p as int)[m] == j as usize);
                    }
                }
                if cands@.take(p as int).contains(j as usize) {
                    let m = choose|m: int| 0 <= m < p && #[trigger] cands@.take(p as int)[m] == j as usize;
                    assert(cands@.take(p + 1)[m] == j as usize);
                }
                if j == c {
                    assert(cands@.take(p + 1)[p as int] == c);
                }
            }
            assert(copy@ =~= Seq::new(n as nat, |j: int| if cands@.take(p + 1).contains(j as usize) {
                if combo@.contains(j as usize) { 1u8 } else { 2u8 }
            } else {
                entry@[j]
            }));
        }
        p += 1;
    }
    assert(cands@.take(p as int) =~= cands@);
    let mut q: usize = 0;
    while q < combo.len()
        invariant
            board.wf(),
            n == entry@.len() == board.n(),
            forall|qq: int| 0 <= qq < combo@.len() ==> #[trigger] combo@[qq] < board.n(),
            q <= combo@.len(),
            copy@ == Seq::new(n as nat, |j: int| if cands@.contains(j as usize) {
                if combo@.contains(j as usize) { 1u8 } else { 2u8 }
            } else if entry@[j] == 0 && combo_beams(board, combo@.take(q as int), j) {
                2u8
            } else {
                entry@[j]
            }),
        decreases combo@.len() - q,
    {
        let lamp = combo[q];
        let lr = &board.lamp_reach[lamp];
        assert(lr@ == board.beam(lamp as int));
        let mut kk: usize = 0;
        while kk < lr.len()
            invariant
                board.wf(),
                n == entry@.len() == board.n(),
                forall|qq: int| 0 <= qq < combo@.len() ==> #[trigger] combo@[qq] < board.n(),
                q < combo@.len(),
                lamp == combo@[q as int],
                lr@ == board.beam(lamp as int),
                kk <= lr@.len(),
                copy@ == Seq::new(n as nat, |j: int| if cands@.contains(j as usize) {
                    if combo@.contains(j as usize) { 1u8 } else { 2u8 }
                } else if entry@[j] == 0 && (combo_beams(board, combo@.take(q as int), j) || lr@.take(kk as int).contains(j as usize)) {
                    2u8
                } else {
                    entry@[j]
                }),
            decreases lr@.len() - kk,
        {
            let reached = lr[kk];
            assert(board.beam(lamp as int)[kk as int] == reached);
            proof {
                assert forall|j: int| 0 <= j < n implies (#[trigger] lr@.take(kk + 1).contains(j as usize) <==> (lr@.take(kk as int).contains(j as usize) || j == reached)) by {
                    if lr@.take(kk + 1).contains(j as usize) {
                        let m = choose|m: int| 0 <= m < kk + 1 && #[trigger] lr@.take(kk + 1)[m] == j as usize;
                        if m < kk {
                            assert(lr@.take(kk as int)[m] == j as usize);
                        }
                    }
                    if lr@.take(kk as int).contains(j as usize) {
                        let m = choose|m: int| 0 <= m < kk && #[trigger] lr@.take(kk as int)[m] == j as usize;
                        assert(lr@.take(kk + 1)[m] == j as usize);
                    }
                    if j == reached {
                        assert(lr@.take(kk + 1)[kk as int] == reached);
                    }
                }
            }
            if copy[reached] == 0 {
                copy.set(reached, 2);
            }
            proof {
                assert(copy@ =~= Seq::new(n as nat, |j: int| if cands@.contains(j as usize) {
                    if combo@.contains(j as usize) { 1u8 } else { 2u8 }
                } else if entry@[j] == 0 && (combo_beams(board, combo@.take(q as int), j) || lr@.take(kk + 1).contains(j as usize)) {
                    2u8
                } else {
                    entry@[j]
                }));
            }
            kk += 1;
        }
        proof {
            assert(lr@.take(kk as int) =~= lr@);
            assert forall|j: int| 0 <= j < n implies (#[trigger] combo_beams(board, combo@.take(q + 1), j) <==> (combo_beams(board, combo@.take(q as int), j) || lr@.contains(j as usize))) by {
                let c1 = combo@.take(q + 1);
                let c0 = combo@.take(q as int);
                if combo_beams(board, c1, j) {
                    let (qq, k2) = choose|qq: int, k2: int|
                        0 <= qq < c1.len() && 0 <= k2 < board.beam(c1[qq] as int).len() && #[trigger] board.beam(c1[qq] as int)[k2] == j;
                    if qq < q {
                        assert(c0[qq] == c1[qq]);
                        assert(board.beam(c0[qq] as int)[k2] == j);
                    } else {
                        assert(lr@[k2] == j);
                    }
                }
                if combo_beams(board, c0, j) {
                    let (qq, k2) = choose|qq: int, k2: int|
                        0 <= qq < c0.len() && 0 <= k2 < board.beam(c0[qq] as int).len() && #[trigger] board.beam(c0[qq] as int)[k2] == j;
                    assert(c1[qq] == c0[qq]);
                    assert(board.beam(c1[qq] as int)[k2] == j);
                }
                if lr@.contains(j as usize) {
                    let k2 = choose|k2: int| 0 <= k2 < lr@.len() && lr@[k2] == j as usize;
                    assert(c1[q as int] == lamp);
                    assert(board.beam(c1[q as int] as int)[k2] == j);
                }
            }
            assert(copy@ =~= Seq::new(n as nat, |j: int| if cands@.contains(j as usize) {
                if combo@.contains(j as usize) { 1u8 } else { 2u8 }
            } else if entry@[j] == 0 && combo_beams(board, combo@.take(q + 1), j) {
                2u8
            } else {
                entry@[j]
            }));
        }
        q += 1;
    }
    assert(combo@.take(q as int) =~= combo@);
    assert(copy@ =~= combo_copy(board, entry@, cands@, combo@));
    copy
}


/// Clue case analysis: for every numbered wall still missing lamps, every
/// placement of the missing lamps among its undecided neighbours is tried
/// (lamps on the chosen ones, none on the others, none in the new beams) and
/// checked for consistency; the undecided cells on which all valid
/// placements agree are decided. All walls are analysed on the entry state;
/// a cell decided differently by two walls is a contradiction.
pub fn clue_case_analysis(model: &mut Model) -> (r: Status)
    requires
        old(model).wf(),
    ensures
        (r, final(model).state@) == apply_all(
            old(model).state@,
            clue_decisions(old(model).board, old(model).state@, old(model).board.walls@.len() as int),
        ),
        final(model).board == old(model).board,
        final(model).wf(),
        refines(final(model).state@, old(model).state@),
        sound_outcome(old(model).board, old(model).state@, final(model).state@, r),
        progress_outcome(old(model).state@, final(model).state@, r),
        final(model).methods.records(
            old(model).methods,
            Technique::ClueCaseAnalysis,
            zeros(old(model).state@) - zeros(final(model).state@),
        ),
        (r == Status::Broken) == exists|i: int| 0 <= i < old(model).state@.len()
            && #[trigger] some_wall_decides(old(model).board, old(model).state@, i, 1)
            && some_wall_decides(old(model).board, old(model).state@, i, 2),
        r != Status::Broken ==> forall|k: int, i: int|
            0 <= k < old(model).board.walls@.len() && 0 <= i < old(model).state@.len()
                && (#[trigger] wall_verdict(old(model).board, old(model).state@, k, i)) is Some
                ==> final(model).state@[i] == wall_verdict(old(model).board, old(model).state@, k, i)->0,
        r != Status::Broken ==> forall|i: int| 0 <= i < old(model).state@.len() && #[trigger] final(model).state@[i] != old(model).state@[i]
            ==> some_wall_decides(old(model).board, old(model).state@, i, final(model).state@[i]),
{
    let ghost b = model.board;
    let ghost s0 = model.state@;
    let ghost m0 = model.methods;
    proof {
        lemma_clue_case_verdicts(b, s0);
    }
    let n = model.state.len();
    let entry = model.state.clone();
    assert(entry@ =~= s0);
    let walls = model.board.digit_walls();
    let mut determined: Vec<(usize, u8)> = Vec::new();
    let mut any_wall = false;
    let mut w: usize = 0;
    while w < walls.len()
        invariant
            model.board == b,
            model.state@ == s0,
            model.methods == m0,
            model.wf(),
            n == s0.len() == b.n(),
            entry@ == s0,
            walls@ == b.walls@,
            w <= walls@.len(),
            determined@ == clue_decisions(b, s0, w as int),
            !any_wall ==> determined@.len() == 0,
            forall|q: int| 0 <= q < determined@.len() ==> {
                &&& (#[trigger] determined@[q]).0 < n
                &&& s0[determined@[q].0 as int] == 0
                &&& (determined@[q].1 == 1 || determined@[q].1 == 2)
                &&& forced(b, s0, determined@[q].0 as int, determined@[q].1)
            },
        decreases walls@.len() - w,
    {
        let (wall, digit) = walls[w];
        assert(wall == b.wall_cell(w as int) && digit == b.wall_digit(w as int));
        let ghost nbs = b.nbrs(wall as int);
        let (placed, cands) = wall_candidates(model.board, &entry, wall);
        if placed > digit {
            proof {
                assert forall|j: int| 0 <= j < n implies #[trigger] wall_verdict(b, s0, w as int, j) is None by {}
                lemma_wall_decisions_none(b, s0, w as int, n as int);
                assert(clue_decisions(b, s0, w + 1) =~= clue_decisions(b, s0, w as int));
            }
            w += 1;
            continue;
        }
        let need = (digit - placed) as usize;
        if need == 0 || need >= cands.len() {
            proof {
                assert forall|j: int| 0 <= j < n implies #[trigger] wall_verdict(b, s0, w as int, j) is None by {}
                lemma_wall_decisions_none(b, s0, w as int, n as int);
                assert(clue_decisions(b, s0, w + 1) =~= clue_decisions(b, s0, w as int));
            }
            w += 1;
            continue;
        }
        proof {
            assert forall|q: int| 0 <= q < nbs.len() implies #[trigger] nbs[q] < s0.len() by {}
            lemma_zeros_of_elems(s0, nbs);
        }
        let combos = combinations(&cands, need);
        proof {
            lemma_combos_bounded(cands@, need as nat, 0, Seq::empty(), n as int);
        }
        let mut wall_a: Vec<u8> = vec![1u8; n];
        let mut wall_b: Vec<u8> = vec![1u8; n];
        let mut valid_count: usize = 0;
        let mut m: usize = 0;
        while m < combos.len()
            invariant
                model.board == b,
                model.state@ == s0,
                model.wf(),
                n == s0.len() == b.n(),
                entry@ == s0,
                forall|q: int| 0 <= q < cands@.len() ==> #[trigger] cands@[q] < n && s0[cands@[q] as int] == 0,
                views(combos@) == combos_from(cands@, need as nat, 0, Seq::empty()),
                forall|mm: int, q: int| 0 <= mm < views(combos@).len() && 0 <= q < views(combos@)[mm].len()
                    ==> #[trigger] views(combos@)[mm][q] < n,
                m <= combos@.len(),
                valid_count <= m,
                (valid_count > 0) == (exists|mm: int| 0 <= mm < m && #[trigger] combo_valid(b, s0, cands@, views(combos@)[mm])),
                wall_a@.len() == n,
                wall_b@.len() == n,
                forall|i: int| 0 <= i < n ==> (#[trigger] wall_b@[i] == 1 <==> forall|mm: int| 0 <= mm < m && combo_valid(b, s0, cands@, #[trigger] views(combos@)[mm])
                    ==> combo_copy(b, s0, cands@, views(combos@)[mm])[i] == 1),
                forall|i: int| 0 <= i < n ==> (#[trigger] wall_a@[i] == 1 <==> forall|mm: int| 0 <= mm < m && combo_valid(b, s0, cands@, #[trigger] views(combos@)[mm])
                    ==> combo_copy(b, s0, cands@, views(combos@)[mm])[i] == 2),
            decreases combos@.len() - m,
        {
            let combo = &combos[m];
            assert(combo@ == views(combos@)[m as int]);
            let copy = build_copy(model.board, &entry, &cands, combo);
            let ok = is_consistent(model.board, copy.as_slice());
            let ghost old_a = wall_a@;
            let ghost old_b = wall_b@;
            assert(forall|j: int| 0 <= j < n ==> #[trigger] copy@[j] <= 2) by {
                assert forall|j: int| 0 <= j < n implies #[trigger] copy@[j] <= 2 by {
                    assert(s0[j] <= 2);
                }
            }
            if ok {
                valid_count += 1;
                let mut i: usize = 0;
                while i < n
                    invariant
                        n == copy@.len(),
                        old_a.len() == n,
                        old_b.len() == n,
                        wall_a@.len() == n,
                        wall_b@.len() == n,
                        i <= n,
                        forall|j: int| 0 <= j < n ==> #[trigger] copy@[j] <= 2,
                        forall|j: int| 0 <= j < i ==> (#[trigger] wall_b@[j] == 1 <==> (old_b[j] == 1 && copy@[j] == 1)),
                        forall|j: int| 0 <= j < i ==> (#[trigger] wall_a@[j] == 1 <==> (old_a[j] == 1 && copy@[j] == 2)),
                        forall|j: int| i <= j < n ==> wall_b@[j] == old_b[j] && wall_a@[j] == old_a[j],
                    decreases n - i,
                {
                    if copy[i] == 0 {
                        wall_a.set(i, 0);
                        wall_b.set(i, 0);
                    } else if copy[i] == 1 {
                        wall_a.set(i, 0);
                    } else {
                        wall_b.set(i, 0);
                    }
                    i += 1;
                }
            }
            proof {
                if ok {
                    assert(combo_valid(b, s0, cands@, views(combos@)[m as int]));
                } else {
                    assert(!combo_valid(b, s0, cands@, views(combos@)[m as int]));
                }
                assert forall|i: int| 0 <= i < n implies (#[trigger] wall_b@[i] == 1 <==> forall|mm: int| 0 <= mm < m + 1 && combo_valid(b, s0, cands@, #[trigger] views(combos@)[mm])
                    ==> combo_copy(b, s0, cands@, views(combos@)[mm])[i] == 1) by {
                    if wall_b@[i] == 1 {
                        assert forall|mm: int| 0 <= mm < m + 1 && combo_valid(b, s0, cands@, #[trigger] views(combos@)[mm])
                            implies combo_copy(b, s0, cands@, views(combos@)[mm])[i] == 1 by {
                            if mm < m {
                                assert(old_b[i] == 1);
                            }
                        }
                    } else {
                        if ok {
                            if old_b[i] == 1 {
                                assert(combo_valid(b, s0, cands@, views(combos@)[m as int]));
                            }
                        }
                    }
                }
                assert forall|i: int| 0 <= i < n implies (#[trigger] wall_a@[i] == 1 <==> forall|mm: int| 0 <= mm < m + 1 && combo_valid(b, s0, cands@, #[trigger] views(combos@)[mm])
                    ==> combo_copy(b, s0, cands@, views(combos@)[mm])[i] == 2) by {
                    if wall_a@[i] == 1 {
                        assert forall|mm: int| 0 <= mm < m + 1 && combo_valid(b, s0, cands@, #[trigger] views(combos@)[mm])
                            implies combo_copy(b, s0, cands@, views(combos@)[mm])[i] == 2 by {
                            if mm < m {
                                assert(old_a[i] == 1);
                            }
                        }
                    } else {
                        if ok {
                            if old_a[i] == 1 {
                                assert(combo_valid(b, s0, cands@, views(combos@)[m as int]));
                            }
                        }
                    }
                }
            }
            m += 1;
        }
        if valid_count == 0 {
            proof {
                assert forall|j: int| 0 <= j < n implies #[trigger] wall_verdict(b, s0, w as int, j) is None by {
                    assert(views(combos@) == combos_from(cands@, need as nat, 0, Seq::empty()));
                }
                lemma_wall_decisions_none(b, s0, w as int, n as int);
                assert(clue_decisions(b, s0, w + 1) =~= clue_decisions(b, s0, w as int));
            }
            w += 1;
            continue;
        }
        any_wall = true;
        let mut i: usize = 0;
        while i < n
            invariant
                model.board == b,
                model.wf(),
                n == s0.len() == b.n(),
                entry@ == s0,
                w < walls@.len(),
                walls@ == b.walls@,
                wall == b.wall_cell(w as int),
                digit == b.wall_digit(w as int),
                cands@ == zeros_of(s0, b.nbrs(wall as int)),
                placed == count_of(s0, b.nbrs(wall as int), 1),
                placed + need == digit,
                0 < need < cands@.len(),
                views(combos@) == combos_from(cands@, need as nat, 0, Seq::empty()),
                exists|mm: int| 0 <= mm < combos@.len() && #[trigger] combo_valid(b, s0, cands@, views(combos@)[mm]),
                determined@ == clue_decisions(b, s0, w as int) + wall_decisions(b, s0, w as int, i as int),
                wall_a@.len() == n,
                wall_b@.len() == n,
                forall|ii: int| 0 <= ii < n ==> (#[trigger] wall_b@[ii] == 1 <==> forall|mm: int| 0 <= mm < combos@.len() && combo_valid(b, s0, cands@, #[trigger] views(combos@)[mm])
                    ==> combo_copy(b, s0, cands@, views(combos@)[mm])[ii] == 1),
                forall|ii: int| 0 <= ii < n ==> (#[trigger] wall_a@[ii] == 1 <==> forall|mm: int| 0 <= mm < combos@.len() && combo_valid(b, s0, cands@, #[trigger] views(combos@)[mm])
                    ==> combo_copy(b, s0, cands@, views(combos@)[mm])[ii] == 2),
                i <= n,
                forall|q: int| 0 <= q < determined@.len() ==> {
                    &&& (#[trigger] determined@[q]).0 < n
                    &&& s0[determined@[q].0 as int] == 0
                    &&& (determined@[q].1 == 1 || determined@[q].1 == 2)
                    &&& forced(b, s0, determined@[q].0 as int, determined@[q].1)
                },
            decreases n - i,
        {
            let ghost before = determined@;
            if entry[i] != 0 {
                proof {
                    assert(wall_verdict(b, s0, w as int, i as int) is None);
                    assert(determined@ =~= clue_decisions(b, s0, w as int) + wall_decisions(b, s0, w as int, i + 1));
                }
                i += 1;
                continue;
            }
            proof {
                lemma_wall_verdict(b, s0, w as int, i as int, cands@, need as int, views(combos@));
            }
            if wall_b[i] == 1 {
                proof {
                    lemma_wall_forced(b, s0, w as int, cands@, need as nat, views(combos@), i as int, 1);
                    assert(wall_verdict(b, s0, w as int, i as int) == Some(1u8));
                }
                determined.push((i, 1));
            } else if wall_a[i] == 1 {
                proof {
                    lemma_wall_forced(b, s0, w as int, cands@, need as nat, views(combos@), i as int, 2);
                    assert(wall_verdict(b, s0, w as int, i as int) == Some(2u8));
                }
                determined.push((i, 2));
            } else {
                proof {
                    assert(wall_verdict(b, s0, w as int, i as int) is None);
                }
            }
            proof {
                assert(determined@ =~= clue_decisions(b, s0, w as int) + wall_decisions(b, s0, w as int, i + 1));
            }
            i += 1;
        }
        proof {
            assert(clue_decisions(b, s0, w + 1) == clue_decisions(b, s0, w as int) + wall_decisions(b, s0, w as int, n as int));
        }
        w += 1;
    }
    if !any_wall || determined.len() == 0 {
        proof {
            assert(determined@ =~= Seq::<(usize, u8)>::empty());
            lemma_refines_refl(s0);
            lemma_keeps_refl(b, s0);
            Methods::lemma_records_zero(m0, Technique::ClueCaseAnalysis);
        }
        return Status::Stopped;
    }
    proof {
        lemma_refines_refl(s0);
        lemma_keeps_refl(b, s0);
        Methods::lemma_records_zero(m0, Technique::ClueCaseAnalysis);
    }
    let mut applied = false;
    let mut q: usize = 0;
    while q < determined.len()
        invariant
            model.board == b,
            b == old(model).board,
            s0 == old(model).state@,
            m0 == old(model).methods,
            model.wf(),
            n == s0.len() == b.n(),
            q <= determined@.len(),
            forall|qq: int| 0 <= qq < determined@.len() ==> {
                &&& (#[trigger] determined@[qq]).0 < n
                &&& s0[determined@[qq].0 as int] == 0
                &&& (determined@[qq].1 == 1 || determined@[qq].1 == 2)
                &&& forced(b, s0, determined@[qq].0 as int, determined@[qq].1)
            },
            forall|x: int| 0 <= x < n && #[trigger] model.state@[x] != s0[x] ==> forced(b, s0, x, model.state@[x]),
            keeps_solutions(b, s0, model.state@),
            refines(model.state@, s0),
            model.methods.records(m0, Technique::ClueCaseAnalysis, zeros(s0) - zeros(model.state@)),
            zeros(model.state@) <= zeros(s0),
            applied <==> model.state@ != s0,
            determined@ == clue_decisions(b, s0, b.walls@.len() as int),
            apply_all(s0, determined@.take(q as int)) == (if applied { Status::Completed } else { Status::Stopped }, model.state@),
        decreases determined@.len() - q,
    {
        let (cell, value) = determined[q];
        proof {
            assert(determined@.take(q + 1).drop_last() =~= determined@.take(q as int));
        }
        let ghost st = model.state@;
        let ghost mc = model.methods;
        proof {
            if st[cell as int] == 0 || st[cell as int] == value {
                lemma_set_forced(b, s0, st, cell as int, value);
            }
        }
        let ret = model.apply(cell, value, Technique::ClueCaseAnalysis);
        match ret {
            Status::Completed => {
                proof {
                    lemma_zeros_update(st, cell as int, value);
                    Methods::lemma_records_trans(m0, mc, model.methods, Technique::ClueCaseAnalysis, zeros(s0) - zeros(st), 1);
                    assert(model.state@[cell as int] != s0[cell as int]);
                    assert forall|x: int| 0 <= x < n && #[trigger] model.state@[x] != s0[x] implies forced(b, s0, x, model.state@[x]) by {
                        if x != cell {
                            assert(model.state@[x] == st[x]);
                        }
                    }
                }
                applied = true;
            },
            Status::Stopped => {},
            Status::Broken => {
                proof {
                    assert(st[cell as int] != s0[cell as int]);
                    assert(forced(b, s0, cell as int, st[cell as int]));
                    assert forall|t: Seq<u8>| !#[trigger] solves(b, t, s0) by {
                        if solves(b, t, s0) {
                            assert(t[cell as int] == value);
                            assert(t[cell as int] == st[cell as int]);
                        }
                    }
                    lemma_apply_all_broken(s0, determined@, q + 1);
                    lemma_clue_case_verdicts(b, s0);
                }
                return Status::Broken;
            },
        }
        q += 1;
    }
    proof {
        lemma_refines_zeros(model.state@, s0);
        assert(determined@.take(q as int) =~= determined@);
    }
    if applied {
        Status::Completed
    } else {
        Status::Stopped
    }
}

} // verus!
