use vstd::prelude::*;

use crate::answer_methods::{Methods, Technique};
use crate::answer_model::Model;
use crate::board::{
    count_of, fill, lemma_count_two_zeros, lemma_count_zero_absent,
    lemma_fill_push, Board,
};
use crate::rules::{
    changed_to, ext_cell, forced, keeps_solutions, lemma_changed_to_refl,
    lemma_changed_to_update, lemma_keeps_refl, lemma_lights_own_reach, lemma_refines_refl,
    lemma_refines_zeros, lemma_set_forced, progress_outcome, refines, solves, sound_outcome,
    unsolvable,
};
use crate::techniques::Status;

verus! {

/// White cell `i` is unlit in `s`.
pub open spec fn unlit_white(b: &Board, s: Seq<u8>, i: int) -> bool {
    b.cells@[i] == 0 && !b.lights(s, i)
}

/// Cell `c` is the single undecided cell in the reach of the unlit white cell `i`.
pub open spec fn sole_for(b: &Board, s: Seq<u8>, i: int, c: int) -> bool {
    &&& unlit_white(b, s, i)
    &&& count_of(s, b.rch(i), 0) == 1
    &&& exists|k: int| 0 <= k < b.rch(i).len() && #[trigger] b.rch(i)[k] == c
    &&& s[c] == 0
}

/// Cell `c` is the only possible light source of some unlit white cell.
pub open spec fn is_sole_source(b: &Board, s: Seq<u8>, c: int) -> bool {
    exists|i: int| 0 <= i < s.len() && #[trigger] sole_for(b, s, i, c)
}

/// Some unlit white cell has no undecided cell in its reach.
pub open spec fn has_dark_cell(b: &Board, s: Seq<u8>) -> bool {
    exists|i: int| 0 <= i < s.len() && #[trigger] unlit_white(b, s, i) && count_of(s, b.rch(i), 0) == 0
}

/// `s` with a lamp on every sole source.
pub open spec fn unique_result(b: &Board, s: Seq<u8>) -> Seq<u8> {
    Seq::new(s.len(), |c: int| if s[c] == 0 && is_sole_source(b, s, c) { 1u8 } else { s[c] })
}

/// The reach of a cell lies within the board.
proof fn lemma_rch_in_range(b: &Board, i: int, k: int)
    requires
        b.wf(),
        0 <= i < b.n(),
        0 <= k < b.rch(i).len(),
    ensures
        b.rch(i)[k] < b.n(),
        b.cells@[i] == 0,
{
    if b.cells@[i] != 0 {
        assert(b.rch(i).len() == 0);
    }
    assert(b.rch(i) == b.beam(i).push(i as usize));
    if k < b.beam(i).len() {
        assert(b.beam(i)[k] == b.rch(i)[k]);
    }
}

/// A sole source must hold a lamp in every solution.
proof fn lemma_sole_forced(b: &Board, s: Seq<u8>, i: int, c: int)
    requires
        b.wf(),
        s.len() == b.n(),
        0 <= i < s.len(),
        sole_for(b, s, i, c),
    ensures
        forced(b, s, c, 1),
{
    assert forall|t: Seq<u8>| #[trigger] solves(b, t, s) implies t[c] == 1 by {
        assert(b.lights(t, i));
        lemma_lights_own_reach(b, t, i);
        lemma_lights_own_reach(b, s, i);
        let k = choose|k: int| 0 <= k < b.rch(i).len() && t[#[trigger] b.rch(i)[k] as int] == 1;
        let kc = choose|k: int| 0 <= k < b.rch(i).len() && #[trigger] b.rch(i)[k] == c;
        lemma_rch_in_range(b, i, k);
        let j = b.rch(i)[k] as int;
        assert(ext_cell(t[j], s[j]));
        assert(s[j] != 1);
        assert(s[j] == 0);
        assert forall|q: int| 0 <= q < b.rch(i).len() implies #[trigger] b.rch(i)[q] < s.len() by {
            lemma_rch_in_range(b, i, q);
        }
        if k < kc {
            lemma_count_two_zeros(s, b.rch(i), k, kc);
        } else if kc < k {
            lemma_count_two_zeros(s, b.rch(i), kc, k);
        }
    }
}

/// An unlit white cell without an undecided cell in its reach cannot be lit.
proof fn lemma_dark_unsolvable(b: &Board, s: Seq<u8>, i: int)
    requires
        b.wf(),
        s.len() == b.n(),
        0 <= i < s.len(),
        unlit_white(b, s, i),
        count_of(s, b.rch(i), 0) == 0,
    ensures
        unsolvable(b, s),
{
    assert forall|t: Seq<u8>| !#[trigger] solves(b, t, s) by {
        if solves(b, t, s) {
            assert(b.lights(t, i));
            lemma_lights_own_reach(b, t, i);
            lemma_lights_own_reach(b, s, i);
            let k = choose|k: int| 0 <= k < b.rch(i).len() && t[#[trigger] b.rch(i)[k] as int] == 1;
            lemma_rch_in_range(b, i, k);
            let j = b.rch(i)[k] as int;
            assert(ext_cell(t[j], s[j]));
            lemma_count_zero_absent(s, b.rch(i));
            assert(s[b.rch(i)[k] as int] != 0);
        }
    }
}

/// Only source: an unlit white cell with a single undecided cell in its
/// reach gets a lamp there. All such cells are found on the entry state
/// before any lamp is placed; an unlit white cell with no undecided cell in
/// its reach is a contradiction.
pub fn unique_source(model: &mut Model) -> (r: Status)
    requires
        old(model).wf(),
    ensures
        final(model).board == old(model).board,
        final(model).wf(),
        (r == Status::Broken) == has_dark_cell(old(model).board, old(model).state@),
        r == Status::Broken ==> final(model).state@ == old(model).state@,
        r != Status::Broken ==> final(model).state@ == unique_result(old(model).board, old(model).state@),
        refines(final(model).state@, old(model).state@),
        sound_outcome(old(model).board, old(model).state@, final(model).state@, r),
        progress_outcome(old(model).state@, final(model).state@, r),
        final(model).methods.records(
            old(model).methods,
            Technique::OnlySource,
            changed_to(old(model).state@, final(model).state@, 1) as int,
        ),
{
    let ghost b = model.board;
    let ghost s0 = model.state@;
    let ghost m0 = model.methods;
    let lit = model.board.lit(model.state.as_slice());
    let n = model.state.len();
    let mut candidates: Vec<usize> = Vec::new();
    let mut i: usize = 0;
    while i < n
        invariant
            model.board == b,
            b == old(model).board,
            s0 == old(model).state@,
            m0 == old(model).methods,
            model.state@ == s0,
            model.methods == m0,
            model.wf(),
            n == s0.len(),
            i <= n,
            lit@.len() == n,
            forall|c: int| 0 <= c < n ==> (#[trigger] lit@[c] == 1 <==> b.lights(s0, c)) && (lit@[c] == 0 || lit@[c] == 1),
            forall|ii: int| 0 <= ii < i ==> !(#[trigger] unlit_white(b, s0, ii) && count_of(s0, b.rch(ii), 0) == 0),
            forall|m: int| 0 <= m < candidates@.len() ==> #[trigger] candidates@[m] < n && is_sole_source(b, s0, candidates@[m] as int),
            forall|ii: int, c: int| 0 <= ii < i && #[trigger] sole_for(b, s0, ii, c) ==> candidates@.contains(c as usize),
        decreases n - i,
    {
        if model.board.cells[i] != 0 || lit[i] != 0 {
            assert(!unlit_white(b, s0, i as int));
            assert forall|c: int| #[trigger] sole_for(b, s0, i as int, c) implies candidates@.contains(c as usize) by {}
            i += 1;
            continue;
        }
        assert(unlit_white(b, s0, i as int));
        let r = &model.board.reach[i];
        assert(r@ == b.rch(i as int));
        let mut sole_source: usize = 0;
        let mut cand_count: u8 = 0;
        let mut k: usize = 0;
        let ghost mut first: int = 0;
        proof {
            assert(r@.take(r@.len() as int) =~= r@);
        }
        while k < r.len()
            invariant_except_break
                cand_count <= 1,
                cand_count as nat == count_of(s0, r@.take(k as int), 0),
            invariant
                model.wf(),
                model.board == b,
                model.state@ == s0,
                n == s0.len(),
                i < n,
                r@ == b.rch(i as int),
                r@.take(r@.len() as int) == r@,
                k <= r@.len(),
                cand_count == 1 ==> 0 <= first < k && r@[first] == sole_source && s0[sole_source as int] == 0,
            ensures
                cand_count <= 2,
                cand_count < 2 ==> cand_count as nat == count_of(s0, r@, 0),
                cand_count == 2 ==> count_of(s0, r@, 0) >= 2,
                cand_count == 1 ==> 0 <= first < r@.len() && r@[first] == sole_source && s0[sole_source as int] == 0,
            decreases r@.len() - k,
        {
            let cand = r[k];
            proof {
                lemma_rch_in_range(b, i as int, k as int);
                assert(r@.take(k + 1).drop_last() =~= r@.take(k as int));
            }
            if model.state[cand] == 0 {
                if cand_count == 1 {
                    proof {
                        assert forall|q: int| 0 <= q < r@.take(k + 1).len() implies #[trigger] r@.take(k + 1)[q] < s0.len() by {
                            lemma_rch_in_range(b, i as int, q);
                        }
                        assert(r@.take(k + 1)[first] == sole_source);
                        lemma_count_two_zeros(s0, r@.take(k + 1), first, k as int);
                        lemma_count_prefix_le(s0, r@, k + 1);
                    }
                    cand_count = 2;
                    break;
                }
                cand_count = 1;
                sole_source = cand;
                proof {
                    first = k as int;
                }
            }
            k += 1;
        }
        if cand_count == 0 {
            proof {
                lemma_dark_unsolvable(b, s0, i as int);
                assert(has_dark_cell(b, s0));
                lemma_changed_to_refl(s0, 1);
                Methods::lemma_records_zero(m0, Technique::OnlySource);
                lemma_refines_refl(s0);
            }
            return Status::Broken;
        }
        if cand_count == 1 {
            proof {
                assert(sole_for(b, s0, i as int, sole_source as int));
                lemma_rch_in_range(b, i as int, first);
            }
            let ghost before = candidates@;
            candidates.push(sole_source);
            proof {
                assert(candidates@ == before.push(sole_source));
                assert forall|c: int| #[trigger] sole_for(b, s0, i as int, c) implies candidates@.contains(c as usize) by {
                    let kc = choose|kc: int| 0 <= kc < b.rch(i as int).len() && #[trigger] b.rch(i as int)[kc] == c;
                    assert forall|q: int| 0 <= q < b.rch(i as int).len() implies #[trigger] b.rch(i as int)[q] < s0.len() by {
                        lemma_rch_in_range(b, i as int, q);
                    }
                    if kc < first {
                        lemma_count_two_zeros(s0, b.rch(i as int), kc, first);
                    } else if first < kc {
                        lemma_count_two_zeros(s0, b.rch(i as int), first, kc);
                    }
                    assert(candidates@[candidates@.len() - 1] == c as usize);
                }
                assert forall|ii: int, c: int| 0 <= ii < i && #[trigger] sole_for(b, s0, ii, c) implies candidates@.contains(c as usize) by {
                    assert(before.contains(c as usize));
                    let m = choose|m: int| 0 <= m < before.len() && before[m] == c as usize;
                    assert(candidates@[m] == c as usize);
                }
            }
        } else {
            proof {
                assert forall|c: int| #[trigger] sole_for(b, s0, i as int, c) implies candidates@.contains(c as usize) by {}
            }
        }
        i += 1;
    }
    proof {
        assert(!has_dark_cell(b, s0));
        lemma_keeps_refl(b, s0);
        lemma_refines_refl(s0);
        lemma_changed_to_refl(s0, 1);
        Methods::lemma_records_zero(m0, Technique::OnlySource);
        assert(fill(s0, candidates@.take(0), 1) =~= s0);
    }
    let mut applied = false;
    let mut m: usize = 0;
    while m < candidates.len()
        invariant
            model.board == b,
            b == old(model).board,
            s0 == old(model).state@,
            m0 == old(model).methods,
            model.wf(),
            n == s0.len(),
            m <= candidates@.len(),
            forall|q: int| 0 <= q < candidates@.len() ==> #[trigger] candidates@[q] < n && is_sole_source(b, s0, candidates@[q] as int),
            forall|ii: int, c: int| 0 <= ii < n && #[trigger] sole_for(b, s0, ii, c) ==> candidates@.contains(c as usize),
            !has_dark_cell(b, s0),
            model.state@ == fill(s0, candidates@.take(m as int), 1),
            keeps_solutions(b, s0, model.state@),
            refines(model.state@, s0),
            model.methods.records(m0, Technique::OnlySource, changed_to(s0, model.state@, 1) as int),
            applied <==> model.state@ != s0,
        decreases candidates@.len() - m,
    {
        let cand = candidates[m];
        let ghost st = model.state@;
        let ghost mc = model.methods;
        proof {
            lemma_fill_push(s0, candidates@, m as int, 1);
            let ii = choose|ii: int| 0 <= ii < s0.len() && #[trigger] sole_for(b, s0, ii, cand as int);
            lemma_sole_forced(b, s0, ii, cand as int);
            assert(s0[cand as int] == 0);
            assert(st[cand as int] == 0 || st[cand as int] == 1);
        }
        let ret = model.apply(cand, 1, Technique::OnlySource);
        proof {
            if st[cand as int] == 0 {
                lemma_set_forced(b, s0, st, cand as int, 1);
                lemma_changed_to_update(s0, st, cand as int, 1, 1);
                Methods::lemma_records_trans(m0, mc, model.methods, Technique::OnlySource, changed_to(s0, st, 1) as int, 1);
                assert(model.state@[cand as int] != s0[cand as int]);
            } else {
                assert(st.update(cand as int, 1) =~= st);
            }
        }
        if ret == Status::Completed {
            applied = true;
        }
        m += 1;
    }
    proof {
        assert(candidates@.take(m as int) =~= candidates@);
        assert(model.state@ =~= unique_result(b, s0)) by {
            assert forall|x: int| 0 <= x < n implies #[trigger] candidates@.contains(x as usize) == is_sole_source(b, s0, x) by {
                if candidates@.contains(x as usize) {
                    let q = choose|q: int| 0 <= q < candidates@.len() && candidates@[q] == x as usize;
                    assert(candidates@[q] < n && is_sole_source(b, s0, candidates@[q] as int));
                }
                if is_sole_source(b, s0, x) {
                    let ii = choose|ii: int| 0 <= ii < s0.len() && #[trigger] sole_for(b, s0, ii, x);
                }
            }
        }
        lemma_refines_zeros(model.state@, s0);
    }
    if applied {
        Status::Completed
    } else {
        Status::Stopped
    }
}

/// A prefix never has more undecided cells than the whole list.
pub proof fn lemma_count_prefix_le(s: Seq<u8>, idx: Seq<usize>, k: int)
    requires
        0 <= k <= idx.len(),
    ensures
        count_of(s, idx.take(k), 0) <= count_of(s, idx, 0),
    decreases idx.len() - k,
{
    if k < idx.len() {
        lemma_count_prefix_le(s, idx, k + 1);
        assert(idx.take(k + 1).drop_last() =~= idx.take(k));
    } else {
        assert(idx.take(k) =~= idx);
    }
}

} // verus!
