use vstd::prelude::*;

use crate::answer_methods::{Methods, Technique};
use crate::answer_model::Model;
use crate::grid::{
    at, beam_spec, cell_neighbors, lamp_cells, lemma_beam_spec_exact, lemma_beam_sym, lemma_coords,
    lemma_index, lemma_nbr_spec, nbr_spec, sees, walls_spec,
};
use crate::rules::{
    changed_to, extends, forced, keeps_solutions, lemma_changed_to_refl, lemma_changed_to_update,
    lemma_keeps_refl, lemma_refines_refl, lemma_refines_zeros, lemma_set_forced,
    progress_outcome, refines, solves, sound_outcome, lemma_count_extends, lemma_count_extends_at, ext_cell,
    lemma_count_refines, ref_cell,
};
use crate::techniques::Status;

verus! {

/// The number of positions of `idx` at which `s` holds `v`, counted with
/// multiplicity.
pub open spec fn count_of(s: Seq<u8>, idx: Seq<usize>, v: u8) -> nat
    decreases idx.len(),
{
    if idx.len() == 0 {
        0
    } else {
        count_of(s, idx.drop_last(), v) + (if s[idx.last() as int] == v { 1nat } else { 0nat })
    }
}

/// An akari board: the grid and the relations between its cells that the
/// rules speak of.
pub struct Board<'a> {
    /// 0 = white cell, 1 = wall, 2..=6 = numbered wall (the clue plus 2).
    pub cells: &'a [u8],
    /// The orthogonal neighbours of each cell (walls included).
    pub neighbors: Vec<Vec<usize>>,
    /// The cells that a lamp placed on each cell lights (itself and walls excluded).
    pub lamp_reach: Vec<Vec<usize>>,
    /// `lamp_reach` of each white cell followed by the cell itself.
    pub reach: Vec<Vec<usize>>,
    /// The numbered walls: (cell, clue).
    pub walls: Vec<(usize, u32)>,
}

/// Cell `i` of a `w` by `h` grid has neighbour list `nb`, beam `lr` and reach `rc`.
pub open spec fn built_cell(nb: Seq<usize>, lr: Seq<usize>, rc: Seq<usize>, data: Seq<u8>, w: int, h: int, i: int) -> bool {
    &&& nb == nbr_spec(w, h, i % w, i / w)
    &&& lr == (if data[i] == 0 { beam_spec(data, w, h, i % w, i / w) } else { Seq::empty() })
    &&& rc == (if data[i] == 0 { beam_spec(data, w, h, i % w, i / w).push(i as usize) } else { Seq::empty() })
}

/// The beam of cell `i` of a `w` by `h` grid (none for non-white cells).
pub open spec fn grid_beam(data: Seq<u8>, w: int, h: int, i: int) -> Seq<usize> {
    if data[i] == 0 { beam_spec(data, w, h, i % w, i / w) } else { Seq::empty() }
}

/// The reach of cell `i`: its beam then itself (none for non-white cells).
pub open spec fn grid_reach(data: Seq<u8>, w: int, h: int, i: int) -> Seq<usize> {
    if data[i] == 0 { beam_spec(data, w, h, i % w, i / w).push(i as usize) } else { Seq::empty() }
}

/// Cell `c` of the grid is lit in `t`: some lamp's reach covers it.
pub open spec fn grid_lit(data: Seq<u8>, w: int, h: int, t: Seq<u8>, c: int) -> bool {
    exists|j: int, k: int|
        0 <= j < t.len() && 0 <= k < grid_reach(data, w, h, j).len() && t[j] == 1 && #[trigger] grid_reach(data, w, h, j)[k] == c
}

/// `t` solves the akari puzzle on the `w` by `h` grid `data`: every cell
/// decided, no lamp in the beam of another, every numbered wall with
/// exactly its clue of lamps among its neighbours, every white cell lit.
pub open spec fn grid_is_solution(w: int, h: int, data: Seq<u8>, t: Seq<u8>) -> bool {
    let walls = walls_spec(data, data.len() as int);
    &&& t.len() == w * h
    &&& forall|i: int| 0 <= i < t.len() ==> #[trigger] t[i] != 0
    &&& forall|i: int, k: int|
        0 <= i < t.len() && 0 <= k < grid_beam(data, w, h, i).len() && t[i] == 1 ==> t[#[trigger] grid_beam(data, w, h, i)[k] as int] != 1
    &&& forall|k: int|
        0 <= k < walls.len() ==> count_of(t, nbr_spec(w, h, (#[trigger] walls[k]).0 as int % w, walls[k].0 as int / w), 1) == walls[k].1
    &&& forall|i: int| 0 <= i < t.len() && data[i] == 0 ==> #[trigger] grid_lit(data, w, h, t, i)
}

/// On a board built from a grid, the board's rules are the grid's rules.
pub proof fn lemma_grid_solution(b: &Board, w: int, h: int, t: Seq<u8>)
    requires
        b.built_from(w, h, b.cells@),
        b.cells@.len() == w * h,
        w * h <= usize::MAX,
    ensures
        b.is_solution_spec(t) == grid_is_solution(w, h, b.cells@, t),
{
    let data = b.cells@;
    let n = w * h;
    if t.len() == n {
        assert forall|i: int| 0 <= i < n implies b.beam(i) == #[trigger] grid_beam(data, w, h, i) && b.rch(i) == grid_reach(data, w, h, i) by {
            assert(b.nbrs(i) == nbr_spec(w, h, i % w, i / w));
        }
        assert forall|c: int| 0 <= c < n implies b.lights(t, c) == #[trigger] grid_lit(data, w, h, t, c) by {
            if b.lights(t, c) {
                let (j, k) = choose|j: int, k: int| 0 <= j < t.len() && 0 <= k < b.rch(j).len() && t[j] == 1 && #[trigger] b.rch(j)[k] == c;
                assert(b.beam(j) == grid_beam(data, w, h, j));
                assert(grid_reach(data, w, h, j)[k] == c);
            }
            if grid_lit(data, w, h, t, c) {
                let (j, k) = choose|j: int, k: int| 0 <= j < t.len() && 0 <= k < grid_reach(data, w, h, j).len() && t[j] == 1 && #[trigger] grid_reach(data, w, h, j)[k] == c;
                assert(b.beam(j) == grid_beam(data, w, h, j));
                assert(b.rch(j)[k] == c);
            }
        }
        lemma_walls_spec(data, data.len() as int);
        assert(b.no_lamp_conflict(t) == (forall|i: int, k: int|
            0 <= i < t.len() && 0 <= k < grid_beam(data, w, h, i).len() && t[i] == 1 ==> t[#[trigger] grid_beam(data, w, h, i)[k] as int] != 1)) by {
            if b.no_lamp_conflict(t) {
                assert forall|i: int, k: int| 0 <= i < t.len() && 0 <= k < grid_beam(data, w, h, i).len() && t[i] == 1 implies t[#[trigger] grid_beam(data, w, h, i)[k] as int] != 1 by {
                    assert(b.beam(i)[k] == grid_beam(data, w, h, i)[k]);
                }
            } else {
                let (i, k) = choose|i: int, k: int| !(0 <= i < t.len() && 0 <= k < b.beam(i).len() && t[i] == 1 ==> t[#[trigger] b.beam(i)[k] as int] != 1);
                assert(grid_beam(data, w, h, i)[k] == b.beam(i)[k]);
            }
        }
        let walls = walls_spec(data, data.len() as int);
        assert forall|k: int| 0 <= k < walls.len() implies count_of(t, nbr_spec(w, h, (#[trigger] walls[k]).0 as int % w, walls[k].0 as int / w), 1) == walls[k].1
            <==> count_of(t, b.nbrs(b.wall_cell(k)), 1) == b.wall_digit(k) by {
            assert(b.walls@[k] == walls[k]);
            assert(b.nbrs(walls[k].0 as int) == nbr_spec(w, h, walls[k].0 as int % w, walls[k].0 as int / w));
        }
        if b.is_solution_spec(t) {
            assert forall|k: int| 0 <= k < walls.len() implies count_of(t, nbr_spec(w, h, (#[trigger] walls[k]).0 as int % w, walls[k].0 as int / w), 1) == walls[k].1 by {
                assert(b.walls@[k] == walls[k]);
                assert(count_of(t, b.nbrs(b.wall_cell(k)), 1) == b.wall_digit(k));
            }
            assert forall|i: int| 0 <= i < t.len() && data[i] == 0 implies #[trigger] grid_lit(data, w, h, t, i) by {
                assert(b.lights(t, i));
            }
        }
        if grid_is_solution(w, h, data, t) {
            assert forall|k: int| 0 <= k < b.walls@.len() implies count_of(t, b.nbrs(#[trigger] b.wall_cell(k)), 1) == b.wall_digit(k) by {
                assert(b.walls@[k] == walls[k]);
                assert(count_of(t, nbr_spec(w, h, walls[k].0 as int % w, walls[k].0 as int / w), 1) == walls[k].1);
            }
            assert forall|i: int| 0 <= i < t.len() && b.cells@[i] == 0 implies #[trigger] b.lights(t, i) by {
                assert(grid_lit(data, w, h, t, i));
            }
        }
    }
}

impl<'a> Board<'a> {
    /// The number of cells.
    pub open spec fn n(&self) -> int {
        self.cells@.len() as int
    }

    /// The neighbours of cell `i`.
    pub open spec fn nbrs(&self, i: int) -> Seq<usize> {
        self.neighbors@[i]@
    }

    /// The cells that a lamp on cell `i` lights, other than `i`.
    pub open spec fn beam(&self, i: int) -> Seq<usize> {
        self.lamp_reach@[i]@
    }

    /// The cells whose lamp would light cell `i`: its beam, then itself.
    pub open spec fn rch(&self, i: int) -> Seq<usize> {
        self.reach@[i]@
    }

    /// The cell of numbered wall `k`.
    pub open spec fn wall_cell(&self, k: int) -> int {
        self.walls@[k].0 as int
    }

    /// The clue of numbered wall `k`.
    pub open spec fn wall_digit(&self, k: int) -> u32 {
        self.walls@[k].1
    }

    /// The structural facts about a board that the rules rely on: every
    /// index is in range, a cell has at most four distinct neighbours, a
    /// lamp lights only white cells other than itself, lighting is mutual,
    /// and `reach` is `lamp_reach` plus the cell itself for white cells.
    pub open spec fn wf(&self) -> bool {
        let n = self.n();
        &&& n <= usize::MAX
        &&& self.neighbors@.len() == n
        &&& self.lamp_reach@.len() == n
        &&& self.reach@.len() == n
        &&& forall|i: int| 0 <= i < n ==> {
            &&& (#[trigger] self.nbrs(i)).len() <= 4
            &&& self.nbrs(i).no_duplicates()
            &&& forall|k: int| 0 <= k < self.nbrs(i).len() ==> self.nbrs(i)[k] < n
        }
        &&& forall|i: int, k: int|
            0 <= i < n && 0 <= k < self.beam(i).len() ==> {
                let j = #[trigger] self.beam(i)[k] as int;
                &&& 0 <= j < n
                &&& j != i
                &&& self.cells@[j] == 0
                &&& self.beam(j).contains(i as usize)
            }
        &&& forall|i: int|
            0 <= i < n ==> (if self.cells@[i] == 0 {
                #[trigger] self.rch(i) == self.beam(i).push(i as usize)
            } else {
                self.rch(i).len() == 0 && self.beam(i).len() == 0
            })
        &&& forall|k: int|
            0 <= k < self.walls@.len() ==> {
                &&& 0 <= #[trigger] self.wall_cell(k) < n
                &&& self.wall_digit(k) + 2 == self.cells@[self.wall_cell(k)]
            }
    }

    /// Cell `c` is lit in `s`: some lamp of `s` has it in its reach.
    pub open spec fn lights(&self, s: Seq<u8>, c: int) -> bool {
        exists|j: int, k: int|
            0 <= j < s.len() && 0 <= k < self.rch(j).len() && s[j] == 1 && #[trigger] self.rch(
                j,
            )[k] == c
    }

    /// No two lamps of `s` light each other.
    pub open spec fn no_lamp_conflict(&self, s: Seq<u8>) -> bool {
        forall|i: int, k: int|
            0 <= i < s.len() && 0 <= k < self.beam(i).len() && s[i] == 1 ==> s[#[trigger] self.beam(
                i,
            )[k] as int] != 1
    }

    /// `s` is a solved board: every cell decided, no two lamps light each
    /// other, every numbered wall has exactly its clue of lamps around it,
    /// and every white cell is lit.
    pub open spec fn is_solution_spec(&self, s: Seq<u8>) -> bool {
        &&& s.len() == self.n()
        &&& forall|i: int| 0 <= i < s.len() ==> #[trigger] s[i] != 0
        &&& self.no_lamp_conflict(s)
        &&& forall|k: int|
            0 <= k < self.walls@.len() ==> count_of(s, self.nbrs(#[trigger] self.wall_cell(k)), 1)
                == self.wall_digit(k)
        &&& forall|i: int| 0 <= i < s.len() && self.cells@[i] == 0 ==> #[trigger] self.lights(s, i)
    }

    /// Numbered wall `k` can still be satisfied in `s`: its lamps do not
    /// exceed its clue, and its lamps plus undecided neighbours reach it.
    pub open spec fn wall_feasible(&self, s: Seq<u8>, k: int) -> bool {
        let nb = self.nbrs(self.wall_cell(k));
        let d = self.wall_digit(k);
        count_of(s, nb, 1) <= d <= count_of(s, nb, 1) + count_of(s, nb, 0)
    }

    /// White cell `v` can still be lit in `s`: some cell of its reach is undecided.
    pub open spec fn has_open_source(&self, s: Seq<u8>, v: int) -> bool {
        exists|k: int| 0 <= k < self.rch(v).len() && s[#[trigger] self.rch(v)[k] as int] == 0
    }

    /// The consistency test of a partly decided board: no two lamps light
    /// each other, every numbered wall is still feasible, and every unlit
    /// white cell still has an undecided cell in its reach.
    pub open spec fn is_consistent_spec(&self, s: Seq<u8>) -> bool {
        &&& self.no_lamp_conflict(s)
        &&& forall|k: int| 0 <= k < self.walls@.len() ==> #[trigger] self.wall_feasible(s, k)
        &&& forall|v: int|
            0 <= v < s.len() && self.cells@[v] == 0 && !self.lights(s, v)
                ==> #[trigger] self.has_open_source(s, v)
    }

    /// What `Board::new` builds from a `w` by `h` grid: each cell's
    /// neighbours (left, right, up, down), its beam (rays right, left, down,
    /// up to the first non-white cell; none for non-white cells), its reach
    /// (beam then the cell itself, for white cells), and the numbered walls
    /// of the whole data in cell order.
    pub open spec fn built_from(&self, w: int, h: int, data: Seq<u8>) -> bool {
        let n = w * h;
        &&& self.cells@ == data
        &&& self.neighbors@.len() == n
        &&& self.lamp_reach@.len() == n
        &&& self.reach@.len() == n
        &&& forall|i: int| 0 <= i < n ==> {
            &&& #[trigger] self.nbrs(i) == nbr_spec(w, h, i % w, i / w)
            &&& self.beam(i) == (if data[i] == 0 { beam_spec(data, w, h, i % w, i / w) } else { Seq::empty() })
            &&& self.rch(i) == (if data[i] == 0 { beam_spec(data, w, h, i % w, i / w).push(i as usize) } else { Seq::empty() })
        }
        &&& self.walls@ == walls_spec(data, data.len() as int)
    }

    /// Builds the board of a `w` by `h` grid from its cells in row order
    /// (0 white, 1 wall, 2 to 6 numbered wall with clue 0 to 4).
    pub fn new(w: usize, h: usize, data: &'a [u8]) -> (b: Self)
        requires
            w * h <= usize::MAX,
            data@.len() >= w * h,
        ensures
            b.built_from(w as int, h as int, data@),
            data@.len() == w * h ==> b.wf(),
    {
        let ghost wi = w as int;
        let ghost hi = h as int;
        let mut neighbors: Vec<Vec<usize>> = Vec::new();
        let mut lamp_reach: Vec<Vec<usize>> = Vec::new();
        let mut reach: Vec<Vec<usize>> = Vec::new();
        let mut r: usize = 0;
        let mut i: usize = 0;
        while r < h
            invariant
                wi == w,
                hi == h,
                w * h <= usize::MAX,
                data@.len() >= w * h,
                r <= h,
                i == r * w,
                neighbors@.len() == i,
                lamp_reach@.len() == i,
                reach@.len() == i,
                forall|ii: int| 0 <= ii < i ==> built_cell((#[trigger] neighbors@[ii])@, lamp_reach@[ii]@, reach@[ii]@, data@, wi, hi, ii),
            decreases h - r,
        {
            let mut c: usize = 0;
            while c < w
                invariant
                    wi == w,
                    hi == h,
                    w * h <= usize::MAX,
                    data@.len() >= w * h,
                    r < h,
                    c <= w,
                    i == r * w + c,
                    neighbors@.len() == i,
                    lamp_reach@.len() == i,
                    reach@.len() == i,
                    forall|ii: int| 0 <= ii < i ==> built_cell((#[trigger] neighbors@[ii])@, lamp_reach@[ii]@, reach@[ii]@, data@, wi, hi, ii),
                decreases w - c,
            {
                proof {
                    lemma_index(wi, hi, c as int, r as int);
                    lemma_coords(wi, c as int, r as int);
                    assert(at(wi, c as int, r as int) == i);
                }
                let ghost old_nb = neighbors@;
                let ghost old_lr = lamp_reach@;
                let ghost old_rc = reach@;
                let nb = cell_neighbors(w, h, c, r);
                neighbors.push(nb);
                if data[i] == 0 {
                    let lr = lamp_cells(data, w, h, c, r);
                    let mut rc = lr.clone();
                    assert(rc@ =~= lr@);
                    rc.push(i);
                    lamp_reach.push(lr);
                    reach.push(rc);
                } else {
                    lamp_reach.push(Vec::new());
                    reach.push(Vec::new());
                }
                proof {
                    assert forall|ii: int| 0 <= ii < i + 1 implies built_cell((#[trigger] neighbors@[ii])@, lamp_reach@[ii]@, reach@[ii]@, data@, wi, hi, ii) by {
                        if ii < i {
                            assert(neighbors@[ii] == old_nb[ii]);
                            assert(lamp_reach@[ii] == old_lr[ii]);
                            assert(reach@[ii] == old_rc[ii]);
                        }
                    }
                }
                c += 1;
                i += 1;
            }
            proof {
                assert((r + 1) * w == r * w + w) by (nonlinear_arith);
                assert(forall|ii: int| 0 <= ii < i ==> built_cell((#[trigger] neighbors@[ii])@, lamp_reach@[ii]@, reach@[ii]@, data@, wi, hi, ii));
            }
            r += 1;
        }
        let mut walls: Vec<(usize, u32)> = Vec::new();
        let mut k: usize = 0;
        while k < data.len()
            invariant
                k <= data@.len(),
                walls@ == walls_spec(data@, k as int),
            decreases data@.len() - k,
        {
            if data[k] >= 2 {
                walls.push((k, (data[k] - 2) as u32));
            }
            k += 1;
        }
        let b = Board { cells: data, neighbors, lamp_reach, reach, walls };
        proof {
            assert((r as int) * w == w * h) by (nonlinear_arith)
                requires r == h;
            assert forall|ii: int| 0 <= ii < wi * hi implies {
                &&& #[trigger] b.nbrs(ii) == nbr_spec(wi, hi, ii % wi, ii / wi)
                &&& b.beam(ii) == (if data@[ii] == 0 { beam_spec(data@, wi, hi, ii % wi, ii / wi) } else { Seq::empty() })
                &&& b.rch(ii) == (if data@[ii] == 0 { beam_spec(data@, wi, hi, ii % wi, ii / wi).push(ii as usize) } else { Seq::empty() })
            } by {
                assert(built_cell(neighbors@[ii]@, lamp_reach@[ii]@, reach@[ii]@, data@, wi, hi, ii));
            }
            if data@.len() == w * h {
                lemma_board_wf(&b, wi, hi);
            }
        }
        b
    }

    /// The numbered walls as (cell, clue).
    pub fn digit_walls(&self) -> (r: Vec<(usize, u32)>)
        ensures
            r@ == self.walls@,
    {
        let mut r: Vec<(usize, u32)> = Vec::new();
        let mut k: usize = 0;
        while k < self.walls.len()
            invariant
                k <= self.walls@.len(),
                r@ == self.walls@.take(k as int),
            decreases self.walls@.len() - k,
        {
            r.push(self.walls[k]);
            k += 1;
            assert(r@ =~= self.walls@.take(k as int));
        }
        assert(self.walls@.take(k as int) =~= self.walls@);
        r
    }

    /// The lit map of `state`: 1 where some lamp's reach covers the cell, else 0.
    pub fn lit(&self, state: &[u8]) -> (lit: Vec<u8>)
        requires
            self.wf(),
            state@.len() == self.n(),
        ensures
            lit@.len() == state@.len(),
            forall|c: int|
                0 <= c < lit@.len() ==> (#[trigger] lit@[c] == 1 <==> self.lights(state@, c)) && (
                lit@[c] == 0 || lit@[c] == 1),
    {
        let n = state.len();
        let mut lit: Vec<u8> = vec![0u8; n];
        let mut i: usize = 0;
        while i < n
            invariant
                self.wf(),
                n == state@.len() == self.n(),
                i <= n,
                lit@.len() == n,
                forall|c: int|
                    0 <= c < n ==> (#[trigger] lit@[c] == 1 <==> exists|j: int, k: int|
                        0 <= j < i && 0 <= k < self.rch(j).len() && state@[j] == 1 && #[trigger] self.rch(
                            j,
                        )[k] == c) && (lit@[c] == 0 || lit@[c] == 1),
            decreases n - i,
        {
            if state[i] == 1 {
                let r = &self.reach[i];
                assert(r@ == self.rch(i as int));
                let mut k: usize = 0;
                while k < r.len()
                    invariant
                        self.wf(),
                        n == state@.len() == self.n(),
                        i < n,
                        state@[i as int] == 1,
                        r@ == self.rch(i as int),
                        k <= r@.len(),
                        lit@.len() == n,
                        forall|c: int|
                            0 <= c < n ==> (#[trigger] lit@[c] == 1 <==> (exists|j: int, kk: int|
                                0 <= j < i && 0 <= kk < self.rch(j).len() && state@[j] == 1
                                    && #[trigger] self.rch(j)[kk] == c) || (exists|kk: int|
                                0 <= kk < k && #[trigger] self.rch(i as int)[kk] == c)) && (lit@[c]
                                == 0 || lit@[c] == 1),
                    decreases r@.len() - k,
                {
                    let c = r[k];
                    assert(self.rch(i as int)[k as int] == c);
                    assert(self.beam(i as int).len() + 1 == self.rch(i as int).len()) by {
                        if self.cells@[i as int] != 0 {
                        }
                    }
                    assert(c < n) by {
                        if (k as int) < self.beam(i as int).len() {
                            assert(self.beam(i as int)[k as int] == c);
                        }
                    }
                    lit.set(c, 1);
                    k += 1;
                }
                assert forall|c: int| 0 <= c < n implies (#[trigger] lit@[c] == 1 <==> exists|
                    j: int,
                    kk: int,
                |
                    0 <= j < i + 1 && 0 <= kk < self.rch(j).len() && state@[j] == 1
                        && #[trigger] self.rch(j)[kk] == c) by {
                    if lit@[c] == 1 {
                        if exists|kk: int| 0 <= kk < k && #[trigger] self.rch(i as int)[kk] == c {
                            let kk = choose|kk: int| 0 <= kk < k && #[trigger] self.rch(i as int)[kk] == c;
                            assert(self.rch(i as int)[kk] == c);
                        }
                    }
                    if exists|j: int, kk: int|
                        0 <= j < i + 1 && 0 <= kk < self.rch(j).len() && state@[j] == 1
                            && #[trigger] self.rch(j)[kk] == c {
                        let (j, kk) = choose|j: int, kk: int|
                            0 <= j < i + 1 && 0 <= kk < self.rch(j).len() && state@[j] == 1
                                && #[trigger] self.rch(j)[kk] == c;
                        if j == i {
                            assert(self.rch(i as int)[kk] == c);
                        } else {
                            assert(self.rch(j)[kk] == c);
                        }
                    }
                }
            } else {
                assert forall|c: int| 0 <= c < n implies (#[trigger] lit@[c] == 1 <==> exists|
                    j: int,
                    kk: int,
                |
                    0 <= j < i + 1 && 0 <= kk < self.rch(j).len() && state@[j] == 1
                        && #[trigger] self.rch(j)[kk] == c) by {
                    if exists|j: int, kk: int|
                        0 <= j < i + 1 && 0 <= kk < self.rch(j).len() && state@[j] == 1
                            && #[trigger] self.rch(j)[kk] == c {
                        let (j, kk) = choose|j: int, kk: int|
                            0 <= j < i + 1 && 0 <= kk < self.rch(j).len() && state@[j] == 1
                                && #[trigger] self.rch(j)[kk] == c;
                        assert(self.rch(j)[kk] == c);
                    }
                }
            }
            i += 1;
        }
        lit
    }
}


/// `count_of` never exceeds the number of positions.
pub proof fn lemma_count_of_le_len(s: Seq<u8>, idx: Seq<usize>, v: u8)
    ensures
        count_of(s, idx, v) <= idx.len(),
    decreases idx.len(),
{
    if idx.len() > 0 {
        lemma_count_of_le_len(s, idx.drop_last(), v);
    }
}

/// Counts the lamps and the undecided cells among the neighbours of `cell`.
pub fn wall_counts(board: &Board, state: &[u8], cell: usize) -> (r: (u32, u32))
    requires
        board.wf(),
        state@.len() == board.n(),
        cell < board.n(),
    ensures
        r.0 == count_of(state@, board.nbrs(cell as int), 1),
        r.1 == count_of(state@, board.nbrs(cell as int), 0),
        r.0 + r.1 <= 4,
{
    let nb = &board.neighbors[cell];
    assert(nb@ == board.nbrs(cell as int));
    let mut placed: u32 = 0;
    let mut undecided: u32 = 0;
    let mut k: usize = 0;
    while k < nb.len()
        invariant
            board.wf(),
            state@.len() == board.n(),
            cell < board.n(),
            nb@ == board.nbrs(cell as int),
            k <= nb@.len(),
            placed == count_of(state@, nb@.take(k as int), 1),
            undecided == count_of(state@, nb@.take(k as int), 0),
            placed + undecided <= k,
        decreases nb@.len() - k,
    {
        let c = nb[k];
        assert(nb@.take(k + 1).drop_last() =~= nb@.take(k as int));
        if state[c] == 1 {
            placed += 1;
        } else if state[c] == 0 {
            undecided += 1;
        }
        k += 1;
    }
    assert(nb@.take(k as int) =~= nb@);
    (placed, undecided)
}

/// Whether no two lamps of `state` light each other.
pub fn lamps_apart(board: &Board, state: &[u8]) -> (r: bool)
    requires
        board.wf(),
        state@.len() == board.n(),
    ensures
        r == board.no_lamp_conflict(state@),
{
    let n = state.len();
    let mut i: usize = 0;
    while i < n
        invariant
            board.wf(),
            n == state@.len() == board.n(),
            i <= n,
            forall|ii: int, k: int|
                0 <= ii < i && 0 <= k < board.beam(ii).len() && state@[ii] == 1 ==> state@[
                    #[trigger] board.beam(ii)[k] as int] != 1,
        decreases n - i,
    {
        if state[i] == 1 {
            let lr = &board.lamp_reach[i];
            assert(lr@ == board.beam(i as int));
            let mut k: usize = 0;
            while k < lr.len()
                invariant
                    board.wf(),
                    n == state@.len() == board.n(),
                    i < n,
                    state@[i as int] == 1,
                    lr@ == board.beam(i as int),
                    k <= lr@.len(),
                    forall|kk: int| 0 <= kk < k ==> state@[#[trigger] board.beam(i as int)[kk] as int] != 1,
                decreases lr@.len() - k,
            {
                let c = lr[k];
                assert(board.beam(i as int)[k as int] == c);
                if state[c] == 1 {
                    assert(state@[board.beam(i as int)[k as int] as int] == 1);
                    return false;
                }
                k += 1;
            }
        }
        i += 1;
    }
    true
}

/// The consistency test: no two lamps light each other, every numbered wall
/// is still feasible, and every unlit white cell has an undecided cell in
/// its reach.
pub fn is_consistent(board: &Board, state: &[u8]) -> (r: bool)
    requires
        board.wf(),
        state@.len() == board.n(),
    ensures
        r == board.is_consistent_spec(state@),
{
    let n = state.len();
    if !lamps_apart(board, state) {
        return false;
    }
    let mut w: usize = 0;
    while w < board.walls.len()
        invariant
            board.wf(),
            n == state@.len() == board.n(),
            w <= board.walls@.len(),
            forall|k: int| 0 <= k < w ==> #[trigger] board.wall_feasible(state@, k),
        decreases board.walls@.len() - w,
    {
        let (wall, digit) = board.walls[w];
        assert(wall == board.wall_cell(w as int) && digit == board.wall_digit(w as int));
        let (placed, undecided) = wall_counts(board, state, wall);
        if placed > digit || digit > placed + undecided {
            assert(!board.wall_feasible(state@, w as int));
            return false;
        }
        w += 1;
    }
    let lit = board.lit(state);
    let mut v: usize = 0;
    while v < n
        invariant
            board.wf(),
            n == state@.len() == board.n(),
            v <= n,
            lit@.len() == n,
            forall|c: int|
                0 <= c < n ==> (#[trigger] lit@[c] == 1 <==> board.lights(state@, c)) && (lit@[c]
                    == 0 || lit@[c] == 1),
            forall|u: int|
                0 <= u < v && board.cells@[u] == 0 && !board.lights(state@, u)
                    ==> #[trigger] board.has_open_source(state@, u),
        decreases n - v,
    {
        if board.cells[v] == 0 && lit[v] == 0 {
            let r = &board.reach[v];
            assert(r@ == board.rch(v as int));
            let mut found = false;
            let mut k: usize = 0;
            while k < r.len()
                invariant
                    board.wf(),
                    n == state@.len() == board.n(),
                    v < n,
                    board.cells@[v as int] == 0,
                    r@ == board.rch(v as int),
                    k <= r@.len(),
                    found ==> board.has_open_source(state@, v as int),
                    !found ==> forall|kk: int|
                        0 <= kk < k ==> state@[#[trigger] board.rch(v as int)[kk] as int] != 0,
                decreases r@.len() - k,
            {
                let c = r[k];
                assert(board.rch(v as int)[k as int] == c);
                assert(c < n) by {
                    if (k as int) < board.beam(v as int).len() {
                        assert(board.beam(v as int)[k as int] == c);
                    }
                }
                if state[c] == 0 {
                    found = true;
                }
                k += 1;
            }
            if !found {
                assert(!board.has_open_source(state@, v as int));
                assert(!board.lights(state@, v as int));
                return false;
            }
        }
        v += 1;
    }
    true
}

/// Whether `state` is a solved board: every cell decided, no two lamps light
/// each other, every numbered wall has exactly its clue of lamps, and every
/// white cell is lit.
pub fn is_solution(board: &Board, state: &[u8]) -> (r: bool)
    requires
        board.wf(),
        state@.len() == board.n(),
    ensures
        r == board.is_solution_spec(state@),
{
    let n = state.len();
    let mut i: usize = 0;
    while i < n
        invariant
            n == state@.len(),
            i <= n,
            forall|j: int| 0 <= j < i ==> #[trigger] state@[j] != 0,
        decreases n - i,
    {
        if state[i] == 0 {
            return false;
        }
        i += 1;
    }
    if !lamps_apart(board, state) {
        return false;
    }
    let mut w: usize = 0;
    while w < board.walls.len()
        invariant
            board.wf(),
            n == state@.len() == board.n(),
            w <= board.walls@.len(),
            forall|k: int|
                0 <= k < w ==> count_of(state@, board.nbrs(#[trigger] board.wall_cell(k)), 1)
                    == board.wall_digit(k),
        decreases board.walls@.len() - w,
    {
        let (wall, digit) = board.walls[w];
        assert(wall == board.wall_cell(w as int) && digit == board.wall_digit(w as int));
        let (placed, _) = wall_counts(board, state, wall);
        if placed != digit {
            return false;
        }
        w += 1;
    }
    let lit = board.lit(state);
    let mut v: usize = 0;
    while v < n
        invariant
            board.wf(),
            n == state@.len() == board.n(),
            v <= n,
            lit@.len() == n,
            forall|c: int|
                0 <= c < n ==> (#[trigger] lit@[c] == 1 <==> board.lights(state@, c)) && (lit@[c]
                    == 0 || lit@[c] == 1),
            forall|u: int| 0 <= u < v && board.cells@[u] == 0 ==> #[trigger] board.lights(state@, u),
        decreases n - v,
    {
        if board.cells[v] == 0 && lit[v] == 0 {
            return false;
        }
        v += 1;
    }
    true
}


/// Cell `c` lies in the beam of a lamp `i` of `s` whose position (i, k) in
/// the scan order comes before (ii, kk).
pub open spec fn beamed_before(b: &Board, s: Seq<u8>, ii: int, kk: int, c: int) -> bool {
    exists|i: int, k: int|
        0 <= i < s.len() && 0 <= k < b.beam(i).len() && s[i] == 1 && #[trigger] b.beam(i)[k] == c
            && (i < ii || (i == ii && k < kk))
}

/// Cell `c` lies in the beam of some lamp of `s`.
pub open spec fn beamed(b: &Board, s: Seq<u8>, c: int) -> bool {
    exists|i: int, k: int|
        0 <= i < s.len() && 0 <= k < b.beam(i).len() && s[i] == 1 && #[trigger] b.beam(i)[k] == c
}

/// `s` with the undecided cells beamed before (ii, kk) forbidden.
pub open spec fn beam_partial(b: &Board, s: Seq<u8>, ii: int, kk: int) -> Seq<u8> {
    Seq::new(s.len(), |c: int| if s[c] == 0 && beamed_before(b, s, ii, kk, c) { 2u8 } else { s[c] })
}

/// `s` with every undecided cell in the beam of a lamp forbidden.
pub open spec fn beam_result(b: &Board, s: Seq<u8>) -> Seq<u8> {
    Seq::new(s.len(), |c: int| if s[c] == 0 && beamed(b, s, c) { 2u8 } else { s[c] })
}

/// Lamp `i` of `s` lights lamp `beam(i)[k]`.
pub open spec fn beam_conflict(b: &Board, s: Seq<u8>, i: int, k: int) -> bool {
    0 <= i < s.len() && 0 <= k < b.beam(i).len() && s[i] == 1 && s[b.beam(i)[k] as int] == 1
}

/// `(i, k)` is the first conflict of `s` in the scan order (by lamp, then
/// by position in its beam).
pub open spec fn first_beam_conflict(b: &Board, s: Seq<u8>, i: int, k: int) -> bool {
    &&& beam_conflict(b, s, i, k)
    &&& forall|j: int, kk: int| #[trigger] beam_conflict(b, s, j, kk) ==> i < j || (i == j && k <= kk)
}

/// The board that the lamp beam scan leaves at its first conflict: the
/// undecided cells beamed before that conflict are forbidden.
pub open spec fn beam_stop_state(b: &Board, s: Seq<u8>) -> Seq<u8> {
    let (i, k) = choose|i: int, k: int| first_beam_conflict(b, s, i, k);
    beam_partial(b, s, i, k)
}

/// A white cell that holds a lamp is lit (a lamp lights itself).
pub proof fn lemma_lamp_lit(b: &Board, s: Seq<u8>, c: int)
    requires
        b.wf(),
        s.len() == b.n(),
        0 <= c < s.len(),
        b.cells@[c] == 0,
        s[c] == 1,
    ensures
        b.lights(s, c),
{
    assert(b.rch(c) == b.beam(c).push(c as usize));
    assert(b.rch(c)[b.beam(c).len() as int] == c);
}

/// Lamp beams settle in one pass: on a board whose lamps do not light each
/// other, the board after the pass still has no such lamps, and a second
/// pass changes nothing.
pub proof fn lemma_beam_result_settled(b: &Board, s: Seq<u8>)
    requires
        b.wf(),
        s.len() == b.n(),
        b.no_lamp_conflict(s),
    ensures
        b.no_lamp_conflict(beam_result(b, s)),
        beam_result(b, beam_result(b, s)) == beam_result(b, s),
{
    let r = beam_result(b, s);
    assert forall|c: int| 0 <= c < s.len() implies (#[trigger] r[c] == 1) == (s[c] == 1) by {}
    assert forall|c: int| 0 <= c < s.len() implies #[trigger] beamed(b, r, c) == beamed(b, s, c) by {
        if beamed(b, r, c) {
            let (i, k) = choose|i: int, k: int|
                0 <= i < r.len() && 0 <= k < b.beam(i).len() && r[i] == 1 && #[trigger] b.beam(i)[k] == c;
            assert(s[i] == 1);
        }
        if beamed(b, s, c) {
            let (i, k) = choose|i: int, k: int|
                0 <= i < s.len() && 0 <= k < b.beam(i).len() && s[i] == 1 && #[trigger] b.beam(i)[k] == c;
            assert(r[i] == 1);
        }
    }
    assert forall|i: int, k: int| 0 <= i < r.len() && 0 <= k < b.beam(i).len() && r[i] == 1
        implies r[#[trigger] b.beam(i)[k] as int] != 1 by {
        assert(s[i] == 1);
        assert(s[b.beam(i)[k] as int] != 1);
        assert(0 <= b.beam(i)[k] < s.len());
    }
    assert(beam_result(b, r) =~= r);
}

/// Any solution has no lamp in the beam of a lamp.
proof fn lemma_beam_forced(b: &Board, s: Seq<u8>, i: int, k: int)
    requires
        b.wf(),
        s.len() == b.n(),
        0 <= i < s.len(),
        0 <= k < b.beam(i).len(),
        s[i] == 1,
        s[b.beam(i)[k] as int] == 0,
    ensures
        forced(b, s, b.beam(i)[k] as int, 2),
{
    let c = b.beam(i)[k] as int;
    assert forall|t: Seq<u8>| #[trigger] solves(b, t, s) implies t[c] == 2 by {
        assert(ext_cell(t[i], s[i]));
        assert(ext_cell(t[c], s[c]));
        assert(t[b.beam(i)[k] as int] != 1);
    }
}

/// Lamp beam: every undecided cell that a lamp lights gets no lamp. A lamp
/// in the beam of another is a contradiction.
pub fn lamp_beam(model: &mut Model) -> (r: Status)
    requires
        old(model).wf(),
    ensures
        final(model).board == old(model).board,
        final(model).wf(),
        (r == Status::Broken) == !old(model).board.no_lamp_conflict(old(model).state@),
        r != Status::Broken ==> final(model).state@ == beam_result(old(model).board, old(model).state@),
        r == Status::Broken ==> final(model).state@ == beam_stop_state(old(model).board, old(model).state@),
        refines(final(model).state@, old(model).state@),
        sound_outcome(old(model).board, old(model).state@, final(model).state@, r),
        progress_outcome(old(model).state@, final(model).state@, r),
        final(model).methods.records(
            old(model).methods,
            Technique::LampBeam,
            changed_to(old(model).state@, final(model).state@, 2) as int,
        ),
{
    let ghost b = model.board;
    let ghost s0 = model.state@;
    let ghost m0 = model.methods;
    let n = model.state.len();
    let mut applied = false;
    let mut i: usize = 0;
    proof {
        lemma_keeps_refl(b, s0);
        lemma_refines_refl(s0);
        lemma_changed_to_refl(s0, 2);
        Methods::lemma_records_zero(m0, Technique::LampBeam);
        assert(beam_partial(b, s0, 0, 0) =~= s0);
    }
    while i < n
        invariant
            model.board == b,
            b == old(model).board,
            s0 == old(model).state@,
            m0 == old(model).methods,
            model.wf(),
            n == s0.len() == model.state@.len(),
            i <= n,
            model.state@ == beam_partial(b, s0, i as int, 0),
            forall|j: int, k: int|
                0 <= j < i && 0 <= k < b.beam(j).len() && s0[j] == 1 ==> s0[#[trigger] b.beam(j)[k] as int] != 1,
            keeps_solutions(b, s0, model.state@),
            refines(model.state@, s0),
            model.methods.records(m0, Technique::LampBeam, changed_to(s0, model.state@, 2) as int),
            applied <==> model.state@ != s0,
        decreases n - i,
    {
        if model.state[i] == 1 {
            assert(s0[i as int] == 1);
            let lr = &model.board.lamp_reach[i];
            assert(lr@ == b.beam(i as int));
            let mut k: usize = 0;
            while k < lr.len()
                invariant
                    model.board == b,
                    b == old(model).board,
                    s0 == old(model).state@,
                    m0 == old(model).methods,
                    model.wf(),
                    n == s0.len() == model.state@.len(),
                    i < n,
                    s0[i as int] == 1,
                    lr@ == b.beam(i as int),
                    k <= lr@.len(),
                    model.state@ == beam_partial(b, s0, i as int, k as int),
                    forall|j: int, kk: int|
                        0 <= j < i && 0 <= kk < b.beam(j).len() && s0[j] == 1 ==> s0[#[trigger] b.beam(j)[kk] as int] != 1,
                    forall|kk: int| 0 <= kk < k ==> s0[#[trigger] b.beam(i as int)[kk] as int] != 1,
                    keeps_solutions(b, s0, model.state@),
                    refines(model.state@, s0),
                    model.methods.records(m0, Technique::LampBeam, changed_to(s0, model.state@, 2) as int),
                    applied <==> model.state@ != s0,
                decreases lr@.len() - k,
            {
                let c = lr[k];
                assert(b.beam(i as int)[k as int] == c);
                assert(c < n);
                let ghost cur = model.state@;
                let ghost mc = model.methods;
                let ghost next = beam_partial(b, s0, i as int, k + 1);
                assert(cur[c as int] == s0[c as int] || (s0[c as int] == 0 && cur[c as int] == 2));
                let ret = model.apply(c, 2, Technique::LampBeam);
                match ret {
                    Status::Completed => {
                        proof {
                            assert(s0[c as int] == 0);
                            lemma_beam_forced(b, s0, i as int, k as int);
                            lemma_set_forced(b, s0, cur, c as int, 2);
                            lemma_changed_to_update(s0, cur, c as int, 2, 2);
                            Methods::lemma_records_trans(m0, mc, model.methods, Technique::LampBeam,
                                changed_to(s0, cur, 2) as int, 1);
                            assert(model.state@ != s0) by {
                                assert(model.state@[c as int] != s0[c as int]);
                            }
                        }
                        applied = true;
                    },
                    Status::Stopped => {},
                    Status::Broken => {
                        proof {
                            assert(s0[b.beam(i as int)[k as int] as int] == 1);
                            assert(!b.no_lamp_conflict(s0));
                            assert(first_beam_conflict(b, s0, i as int, k as int)) by {
                                assert forall|j: int, kk: int| #[trigger] beam_conflict(b, s0, j, kk) implies i < j || (i == j && k <= kk) by {
                                    if j < i {
                                        assert(s0[b.beam(j)[kk] as int] != 1);
                                    } else if j == i && kk < k {
                                        assert(s0[b.beam(i as int)[kk] as int] != 1);
                                    }
                                }
                            }
                            let (i2, k2) = choose|i2: int, k2: int| first_beam_conflict(b, s0, i2, k2);
                            assert(beam_conflict(b, s0, i2, k2));
                            assert(i2 == i && k2 == k);
                            assert(model.state@ == beam_stop_state(b, s0));
                            assert forall|t: Seq<u8>| !#[trigger] solves(b, t, s0) by {
                                if solves(b, t, s0) {
                                    assert(ext_cell(t[i as int], s0[i as int]));
                                    assert(ext_cell(t[c as int], s0[c as int]));
                                    assert(t[b.beam(i as int)[k as int] as int] != 1);
                                }
                            }
                        }
                        return Status::Broken;
                    },
                }
                proof {
                    assert(s0[c as int] != 1);
                    assert(model.state@ =~= next) by {
                        assert forall|x: int| 0 <= x < n implies model.state@[x] == next[x] by {
                            if x == c {
                                assert(beamed_before(b, s0, i as int, k + 1, x));
                            } else {
                                if s0[x] == 0 && beamed_before(b, s0, i as int, k + 1, x) {
                                    let (j, kk) = choose|j: int, kk: int|
                                        0 <= j < s0.len() && 0 <= kk < b.beam(j).len() && s0[j] == 1
                                            && #[trigger] b.beam(j)[kk] == x && (j < i || (j == i && kk < k + 1));
                                    if j == i && kk == k {
                                        assert(false);
                                    }
                                    assert(beamed_before(b, s0, i as int, k as int, x));
                                }
                                if s0[x] == 0 && beamed_before(b, s0, i as int, k as int, x) {
                                    let (j, kk) = choose|j: int, kk: int|
                                        0 <= j < s0.len() && 0 <= kk < b.beam(j).len() && s0[j] == 1
                                            && #[trigger] b.beam(j)[kk] == x && (j < i || (j == i && kk < k));
                                    assert(beamed_before(b, s0, i as int, k + 1, x));
                                }
                            }
                        }
                    }
                }
                k += 1;
            }
            proof {
                assert(beam_partial(b, s0, i as int, k as int) =~= beam_partial(b, s0, i + 1, 0)) by {
                    assert forall|x: int| 0 <= x < n implies beamed_before(b, s0, i as int, k as int, x)
                        == beamed_before(b, s0, i + 1, 0, x) by {
                        if beamed_before(b, s0, i + 1, 0, x) {
                            let (j, kk) = choose|j: int, kk: int|
                                0 <= j < s0.len() && 0 <= kk < b.beam(j).len() && s0[j] == 1
                                    && #[trigger] b.beam(j)[kk] == x && (j < i + 1 || (j == i + 1 && kk < 0));
                            assert(beamed_before(b, s0, i as int, k as int, x));
                        }
                    }
                }
            }
        } else {
            proof {
                assert(beam_partial(b, s0, i as int, 0) =~= beam_partial(b, s0, i + 1, 0)) by {
                    assert forall|x: int| 0 <= x < n implies beamed_before(b, s0, i as int, 0, x)
                        == beamed_before(b, s0, i + 1, 0, x) by {
                        if beamed_before(b, s0, i + 1, 0, x) {
                            let (j, kk) = choose|j: int, kk: int|
                                0 <= j < s0.len() && 0 <= kk < b.beam(j).len() && s0[j] == 1
                                    && #[trigger] b.beam(j)[kk] == x && (j < i + 1 || (j == i + 1 && kk < 0));
                            assert(j != i);
                            assert(beamed_before(b, s0, i as int, 0, x));
                        }
                    }
                }
            }
        }
        i += 1;
    }
    proof {
        assert(beam_partial(b, s0, n as int, 0) =~= beam_result(b, s0)) by {
            assert forall|x: int| 0 <= x < n implies beamed_before(b, s0, n as int, 0, x)
                == beamed(b, s0, x) by {
                if beamed(b, s0, x) {
                    let (j, kk) = choose|j: int, kk: int|
                        0 <= j < s0.len() && 0 <= kk < b.beam(j).len() && s0[j] == 1
                            && #[trigger] b.beam(j)[kk] == x;
                    assert(beamed_before(b, s0, n as int, 0, x));
                }
            }
        }
        lemma_refines_zeros(model.state@, s0);
    }
    if applied {
        Status::Completed
    } else {
        Status::Stopped
    }
}


/// `s` with every undecided cell listed in `nb` set to `v`.
pub open spec fn fill(s: Seq<u8>, nb: Seq<usize>, v: u8) -> Seq<u8> {
    Seq::new(s.len(), |i: int| if s[i] == 0 && nb.contains(i as usize) { v } else { s[i] })
}

/// The clue rule of numbered wall `k` on `s`: `(false, s)` when the wall can
/// no longer be satisfied; otherwise, when its lamps already match the clue
/// its undecided neighbours get no lamp, when its lamps and undecided
/// neighbours just match the clue those neighbours get lamps, else nothing.
pub open spec fn clue_step(b: &Board, s: Seq<u8>, k: int) -> (bool, Seq<u8>) {
    let nb = b.nbrs(b.wall_cell(k));
    let d = b.wall_digit(k) as int;
    let p = count_of(s, nb, 1) as int;
    let u = count_of(s, nb, 0) as int;
    if p > d || p + u < d {
        (false, s)
    } else if p == d {
        (true, fill(s, nb, 2))
    } else if p + u == d {
        (true, fill(s, nb, 1))
    } else {
        (true, s)
    }
}

/// The clue rules of the first `k` numbered walls applied in order, stopping
/// at the first wall that cannot be satisfied.
pub open spec fn clue_upto(b: &Board, s: Seq<u8>, k: nat) -> (bool, Seq<u8>)
    decreases k,
{
    if k == 0 {
        (true, s)
    } else {
        let prev = clue_upto(b, s, (k - 1) as nat);
        if !prev.0 {
            prev
        } else {
            clue_step(b, prev.1, k - 1)
        }
    }
}

/// Filling one more listed cell changes only that cell.
pub proof fn lemma_fill_step(s: Seq<u8>, nb: Seq<usize>, q: int, v: u8)
    requires
        0 <= q < nb.len(),
        nb.no_duplicates(),
        nb[q] < s.len(),
        s.len() <= usize::MAX,
    ensures
        fill(s, nb.take(q), v)[nb[q] as int] == s[nb[q] as int],
        s[nb[q] as int] == 0 ==> fill(s, nb.take(q + 1), v) == fill(s, nb.take(q), v).update(nb[q] as int, v),
        s[nb[q] as int] != 0 ==> fill(s, nb.take(q + 1), v) == fill(s, nb.take(q), v),
{
    let x = nb[q];
    assert(!nb.take(q).contains(x)) by {
        if nb.take(q).contains(x) {
            let m = choose|m: int| 0 <= m < q && #[trigger] nb.take(q)[m] == x;
            assert(nb[m] == nb[q]);
        }
    }
    assert forall|i: int| 0 <= i < s.len() implies (#[trigger] nb.take(q + 1).contains(i as usize) <==> (nb.take(q).contains(i as usize) || i == x)) by {
        if nb.take(q + 1).contains(i as usize) {
            let m = choose|m: int| 0 <= m < q + 1 && #[trigger] nb.take(q + 1)[m] == i as usize;
            if m < q {
                assert(nb.take(q)[m] == i as usize);
            }
        }
        if nb.take(q).contains(i as usize) {
            let m = choose|m: int| 0 <= m < q && #[trigger] nb.take(q)[m] == i as usize;
            assert(nb.take(q + 1)[m] == i as usize);
        }
        if i == x {
            assert(nb.take(q + 1)[q] == x);
        }
    }
    if s[x as int] == 0 {
        assert(fill(s, nb.take(q + 1), v) =~= fill(s, nb.take(q), v).update(x as int, v));
    } else {
        assert(fill(s, nb.take(q + 1), v) =~= fill(s, nb.take(q), v));
    }
}

/// Numbered wall constraint: a wall whose lamps already match its clue
/// forbids lamps on its other undecided neighbours (`ClueFull`); a wall whose
/// lamps and undecided neighbours just match its clue gets lamps on all of
/// them (`JustEnough`); a wall that can no longer be satisfied is a
/// contradiction. The walls are taken in order, each on the state the
/// previous ones left.
pub fn clue_neighbors(model: &mut Model) -> (r: Status)
    requires
        old(model).wf(),
    ensures
        final(model).board == old(model).board,
        final(model).wf(),
        final(model).state@ == clue_upto(old(model).board, old(model).state@, old(model).board.walls@.len()).1,
        (r == Status::Broken) == !clue_upto(old(model).board, old(model).state@, old(model).board.walls@.len()).0,
        refines(final(model).state@, old(model).state@),
        sound_outcome(old(model).board, old(model).state@, final(model).state@, r),
        progress_outcome(old(model).state@, final(model).state@, r),
        final(model).methods.records_two(
            old(model).methods,
            Technique::ClueFull,
            changed_to(old(model).state@, final(model).state@, 2) as int,
            Technique::JustEnough,
            changed_to(old(model).state@, final(model).state@, 1) as int,
        ),
{
    let ghost b = model.board;
    let ghost s0 = model.state@;
    let ghost m0 = model.methods;
    let mut applied = false;
    let mut w: usize = 0;
    proof {
        lemma_keeps_refl(b, s0);
        lemma_refines_refl(s0);
        lemma_changed_to_refl(s0, 2);
        lemma_changed_to_refl(s0, 1);
    }
    while w < model.board.walls.len()
        invariant
            model.board == b,
            b == old(model).board,
            s0 == old(model).state@,
            m0 == old(model).methods,
            model.wf(),
            s0.len() == model.state@.len(),
            w <= b.walls@.len(),
            clue_upto(b, s0, w as nat) == (true, model.state@),
            keeps_solutions(b, s0, model.state@),
            refines(model.state@, s0),
            model.methods.records_two(m0, Technique::ClueFull, changed_to(s0, model.state@, 2) as int,
                Technique::JustEnough, changed_to(s0, model.state@, 1) as int),
            applied <==> model.state@ != s0,
        decreases b.walls@.len() - w,
    {
        let (wall, digit) = model.board.walls[w];
        assert(wall == b.wall_cell(w as int) && digit == b.wall_digit(w as int));
        let ghost cur = model.state@;
        let ghost nbs = b.nbrs(wall as int);
        let (placed, undecided) = wall_counts(model.board, model.state.as_slice(), wall);
        assert(clue_upto(b, s0, (w + 1) as nat) == clue_step(b, cur, w as int));
        if placed > digit || placed + undecided < digit {
            proof {
                assert forall|t: Seq<u8>| !#[trigger] solves(b, t, s0) by {
                    if solves(b, t, s0) {
                        assert(extends(t, cur));
                        assert forall|q: int| 0 <= q < nbs.len() implies #[trigger] nbs[q] < cur.len() by {}
                        lemma_count_extends(t, cur, nbs);
                        assert(count_of(t, b.nbrs(b.wall_cell(w as int)), 1) == b.wall_digit(w as int));
                    }
                }
                assert(clue_upto(b, s0, (w + 1) as nat) == (false, cur));
                lemma_clue_upto_stays_broken(b, s0, (w + 1) as nat, b.walls@.len());
            }
            return Status::Broken;
        }
        if placed == digit || placed + undecided == digit {
            let value: u8 = if placed == digit { 2 } else { 1 };
            let tech = if placed == digit { Technique::ClueFull } else { Technique::JustEnough };
            let nb = &model.board.neighbors[wall];
            assert(nb@ == nbs);
            let mut q: usize = 0;
            proof {
                assert(fill(cur, nbs.take(0), value) =~= cur);
            }
            while q < nb.len()
                invariant
                    model.board == b,
                    b == old(model).board,
                    s0 == old(model).state@,
                    m0 == old(model).methods,
                    model.wf(),
                    s0.len() == model.state@.len() == cur.len(),
                    w < b.walls@.len(),
                    wall == b.wall_cell(w as int),
                    digit == b.wall_digit(w as int),
                    nb@ == nbs,
                    nbs == b.nbrs(wall as int),
                    0 <= wall < b.n(),
                    placed == count_of(cur, nbs, 1),
                    undecided == count_of(cur, nbs, 0),
                    value == 2 ==> placed == digit,
                    value == 1 ==> placed + undecided == digit,
                    value == 1 || value == 2,
                    tech == (if value == 2 { Technique::ClueFull } else { Technique::JustEnough }),
                    q <= nbs.len(),
                    model.state@ == fill(cur, nbs.take(q as int), value),
                    keeps_solutions(b, s0, cur),
                    refines(cur, s0),
                    keeps_solutions(b, s0, model.state@),
                    refines(model.state@, s0),
                    model.methods.records_two(m0, Technique::ClueFull, changed_to(s0, model.state@, 2) as int,
                        Technique::JustEnough, changed_to(s0, model.state@, 1) as int),
                    applied <==> model.state@ != s0,
                decreases nbs.len() - q,
            {
                let c = nb[q];
                assert(nbs[q as int] == c);
                assert(c < b.n());
                proof {
                    lemma_fill_step(cur, nbs, q as int, value);
                }
                if model.state[c] == 0 {
                    let ghost st = model.state@;
                    let ghost mc = model.methods;
                    proof {
                        assert(cur[c as int] == 0);
                        assert(forced(b, s0, c as int, value)) by {
                            assert forall|t: Seq<u8>| #[trigger] solves(b, t, s0) implies t[c as int] == value by {
                                assert(extends(t, cur));
                                assert forall|qq: int| 0 <= qq < nbs.len() implies #[trigger] nbs[qq] < cur.len() by {}
                                assert(nbs.contains(c));
                                lemma_count_extends_at(t, cur, nbs, c as int);
                                assert(count_of(t, b.nbrs(b.wall_cell(w as int)), 1) == b.wall_digit(w as int));
                                assert(ext_cell(t[c as int], cur[c as int]));
                            }
                        }
                        lemma_set_forced(b, s0, st, c as int, value);
                        lemma_changed_to_update(s0, st, c as int, value, 2);
                        lemma_changed_to_update(s0, st, c as int, value, 1);
                    }
                    let ret = model.apply(c, value, tech);
                    proof {
                        Methods::lemma_records_two_step(m0, mc, model.methods, Technique::ClueFull,
                            changed_to(s0, st, 2) as int, Technique::JustEnough, changed_to(s0, st, 1) as int, tech);
                        assert(model.state@ != s0) by {
                            assert(model.state@[c as int] != s0[c as int]);
                        }
                    }
                    applied = true;
                }
                q += 1;
            }
            proof {
                assert(nbs.take(q as int) =~= nbs);
            }
        }
        w += 1;
    }
    proof {
        lemma_refines_zeros(model.state@, s0);
    }
    if applied {
        Status::Completed
    } else {
        Status::Stopped
    }
}

/// The clue rules of the first `k` walls only decide undecided neighbours of
/// those walls, each to a lamp or no lamp.
proof fn lemma_clue_upto_changes(b: &Board, s: Seq<u8>, k: nat)
    requires
        b.wf(),
        s.len() == b.n(),
        k <= b.walls@.len(),
    ensures
        clue_upto(b, s, k).1.len() == s.len(),
        refines(clue_upto(b, s, k).1, s),
        forall|x: int| 0 <= x < s.len() && #[trigger] clue_upto(b, s, k).1[x] != s[x] ==> s[x] == 0
            && exists|j: int| 0 <= j < k && b.nbrs(b.wall_cell(j)).contains(x as usize),
    decreases k,
{
    if k > 0 {
        lemma_clue_upto_changes(b, s, (k - 1) as nat);
        let prev = clue_upto(b, s, (k - 1) as nat).1;
        let cur = clue_upto(b, s, k).1;
        let nb = b.nbrs(b.wall_cell(k - 1));
        assert forall|x: int| 0 <= x < s.len() implies ref_cell(#[trigger] cur[x], s[x]) by {
            assert(ref_cell(prev[x], s[x]));
        }
        assert forall|x: int| 0 <= x < s.len() && #[trigger] cur[x] != s[x] implies s[x] == 0
            && exists|j: int| 0 <= j < k && b.nbrs(b.wall_cell(j)).contains(x as usize) by {
            assert(ref_cell(prev[x], s[x]));
            if prev[x] != s[x] {
                let j = choose|j: int| 0 <= j < k - 1 && b.nbrs(b.wall_cell(j)).contains(x as usize);
                assert(0 <= j < k);
            } else {
                assert(nb.contains(x as usize));
            }
        }
    }
}

/// A numbered wall that the state can no longer satisfy makes the clue
/// rules fail.
proof fn lemma_infeasible_wall_breaks(b: &Board, s: Seq<u8>, k0: int, k: nat)
    requires
        b.wf(),
        s.len() == b.n(),
        0 <= k0 < k <= b.walls@.len(),
        !b.wall_feasible(s, k0),
    ensures
        !clue_upto(b, s, k).0,
    decreases k,
{
    if k0 < k - 1 {
        lemma_infeasible_wall_breaks(b, s, k0, (k - 1) as nat);
    } else {
        let prev = clue_upto(b, s, (k - 1) as nat);
        if prev.0 {
            lemma_clue_upto_changes(b, s, (k - 1) as nat);
            let nb = b.nbrs(b.wall_cell(k0));
            assert(0 <= b.wall_cell(k0) < b.n());
            assert forall|q: int| 0 <= q < nb.len() implies #[trigger] nb[q] < s.len() by {}
            lemma_count_refines(prev.1, s, nb);
        }
    }
}

/// The clue rule of all numbered walls fails whenever some wall can no
/// longer be satisfied, and otherwise only decides undecided neighbours of
/// numbered walls, each to a lamp or no lamp.
pub proof fn lemma_clue_rules(b: &Board, s: Seq<u8>)
    requires
        b.wf(),
        s.len() == b.n(),
    ensures
        (exists|k: int| 0 <= k < b.walls@.len() && !#[trigger] b.wall_feasible(s, k))
            ==> !clue_upto(b, s, b.walls@.len()).0,
        refines(clue_upto(b, s, b.walls@.len()).1, s),
        forall|x: int| 0 <= x < s.len() && #[trigger] clue_upto(b, s, b.walls@.len()).1[x] != s[x] ==> s[x] == 0
            && exists|j: int| 0 <= j < b.walls@.len() && b.nbrs(b.wall_cell(j)).contains(x as usize),
{
    lemma_clue_upto_changes(b, s, b.walls@.len());
    if exists|k: int| 0 <= k < b.walls@.len() && !#[trigger] b.wall_feasible(s, k) {
        let k = choose|k: int| 0 <= k < b.walls@.len() && !#[trigger] b.wall_feasible(s, k);
        lemma_infeasible_wall_breaks(b, s, k, b.walls@.len());
    }
}

/// Once a wall cannot be satisfied, later walls change nothing.
pub proof fn lemma_clue_upto_stays_broken(b: &Board, s: Seq<u8>, k1: nat, k2: nat)
    requires
        k1 <= k2,
        !clue_upto(b, s, k1).0,
    ensures
        !clue_upto(b, s, k2).0,
        clue_upto(b, s, k2) == clue_upto(b, s, k1),
    decreases k2 - k1,
{
    if k1 < k2 {
        lemma_clue_upto_stays_broken(b, s, k1, (k2 - 1) as nat);
    }
}


/// Extending the list of `fill` by one cell sets that cell when it is
/// undecided, duplicates allowed.
pub proof fn lemma_fill_push(s: Seq<u8>, nb: Seq<usize>, q: int, v: u8)
    requires
        0 <= q < nb.len(),
        nb[q] < s.len(),
        s.len() <= usize::MAX,
    ensures
        s[nb[q] as int] == 0 ==> fill(s, nb.take(q + 1), v) == fill(s, nb.take(q), v).update(nb[q] as int, v),
        s[nb[q] as int] != 0 ==> fill(s, nb.take(q + 1), v) == fill(s, nb.take(q), v),
{
    let x = nb[q];
    assert forall|i: int| 0 <= i < s.len() implies (#[trigger] nb.take(q + 1).contains(i as usize) <==> (nb.take(q).contains(i as usize) || i == x)) by {
        if nb.take(q + 1).contains(i as usize) {
            let m = choose|m: int| 0 <= m < q + 1 && #[trigger] nb.take(q + 1)[m] == i as usize;
            if m < q {
                assert(nb.take(q)[m] == i as usize);
            }
        }
        if nb.take(q).contains(i as usize) {
            let m = choose|m: int| 0 <= m < q && #[trigger] nb.take(q)[m] == i as usize;
            assert(nb.take(q + 1)[m] == i as usize);
        }
        if i == x {
            assert(nb.take(q + 1)[q] == x);
        }
    }
    if s[x as int] == 0 {
        assert(fill(s, nb.take(q + 1), v) =~= fill(s, nb.take(q), v).update(x as int, v));
    } else {
        assert(fill(s, nb.take(q + 1), v) =~= fill(s, nb.take(q), v));
    }
}

/// Two distinct positions of `idx` holding undecided cells give at least two
/// undecided cells.
pub proof fn lemma_count_two_zeros(s: Seq<u8>, idx: Seq<usize>, a: int, c: int)
    requires
        0 <= a < c < idx.len(),
        forall|k: int| 0 <= k < idx.len() ==> #[trigger] idx[k] < s.len(),
        s[idx[a] as int] == 0,
        s[idx[c] as int] == 0,
    ensures
        count_of(s, idx, 0) >= 2,
    decreases idx.len(),
{
    let p = idx.drop_last();
    assert forall|k: int| 0 <= k < p.len() implies #[trigger] p[k] < s.len() by {
        assert(idx[k] < s.len());
    }
    if c == idx.len() - 1 {
        lemma_count_one_zero(s, p, a);
    } else {
        assert(p[a] == idx[a] && p[c] == idx[c]);
        lemma_count_two_zeros(s, p, a, c);
    }
}

/// A position of `idx` holding an undecided cell gives at least one.
pub proof fn lemma_count_one_zero(s: Seq<u8>, idx: Seq<usize>, a: int)
    requires
        0 <= a < idx.len(),
        s[idx[a] as int] == 0,
    ensures
        count_of(s, idx, 0) >= 1,
    decreases idx.len(),
{
    if a < idx.len() - 1 {
        let p = idx.drop_last();
        assert(p[a] == idx[a]);
        lemma_count_one_zero(s, p, a);
    }
}

/// No position of `idx` holds an undecided cell exactly when the count is 0.
pub proof fn lemma_count_zero_absent(s: Seq<u8>, idx: Seq<usize>)
    ensures
        count_of(s, idx, 0) == 0 <==> forall|k: int| 0 <= k < idx.len() ==> s[#[trigger] idx[k] as int] != 0,
    decreases idx.len(),
{
    if idx.len() > 0 {
        let p = idx.drop_last();
        lemma_count_zero_absent(s, p);
        if count_of(s, idx, 0) == 0 {
            assert forall|k: int| 0 <= k < idx.len() implies s[#[trigger] idx[k] as int] != 0 by {
                if k < idx.len() - 1 {
                    assert(p[k] == idx[k]);
                }
            }
        }
        if forall|k: int| 0 <= k < idx.len() ==> s[#[trigger] idx[k] as int] != 0 {
            assert forall|k: int| 0 <= k < p.len() implies s[#[trigger] p[k] as int] != 0 by {
                assert(p[k] == idx[k]);
                assert(s[idx[k] as int] != 0);
            }
            assert(s[idx[idx.len() - 1] as int] != 0);
        }
    }
}


/// A board built from a grid whose data covers exactly the grid is well formed.
pub proof fn lemma_board_wf(b: &Board, w: int, h: int)
    requires
        b.built_from(w, h, b.cells@),
        b.cells@.len() == w * h,
        w * h <= usize::MAX,
        w >= 0,
        h >= 0,
    ensures
        b.wf(),
{
    let data = b.cells@;
    let n = w * h;
    assert forall|i: int| 0 <= i < n implies {
        &&& (#[trigger] b.nbrs(i)).len() <= 4
        &&& b.nbrs(i).no_duplicates()
        &&& forall|k: int| 0 <= k < b.nbrs(i).len() ==> b.nbrs(i)[k] < n
    } by {
        lemma_split(w, h, i);
        lemma_nbr_spec(w, h, i % w, i / w);
        assert forall|k: int| 0 <= k < b.nbrs(i).len() implies b.nbrs(i)[k] < n by {
            assert(nbr_spec(w, h, i % w, i / w)[k] < w * h);
        }
    }
    assert forall|i: int, k: int| 0 <= i < n && 0 <= k < b.beam(i).len() implies {
        let j = #[trigger] b.beam(i)[k] as int;
        &&& 0 <= j < n
        &&& j != i
        &&& data[j] == 0
        &&& b.beam(j).contains(i as usize)
    } by {
        let c = i % w;
        let r = i / w;
        lemma_split(w, h, i);
        assert(b.nbrs(i) == nbr_spec(w, h, i % w, i / w));
        assert(data[i] == 0) by {
            if data[i] != 0 {
                assert(b.beam(i).len() == 0);
            }
        }
        lemma_beam_sym(data, w, h, c, r, k);
        let j = b.beam(i)[k] as int;
        let (c2, r2) = choose|c2: int, r2: int| {
            &&& 0 <= c2 < w
            &&& 0 <= r2 < h
            &&& j == at(w, c2, r2)
            &&& (c2 != c || r2 != r)
            &&& data[at(w, c2, r2)] == 0
            &&& beam_spec(data, w, h, c2, r2).contains(at(w, c, r) as usize)
        };
        lemma_index(w, h, c2, r2);
        lemma_coords(w, c2, r2);
        lemma_coords(w, c, r);
        assert(b.nbrs(j) == nbr_spec(w, h, j % w, j / w));
        assert(b.beam(j) == beam_spec(data, w, h, c2, r2));
    }
    assert forall|i: int| 0 <= i < n implies (if data[i] == 0 {
        #[trigger] b.rch(i) == b.beam(i).push(i as usize)
    } else {
        b.rch(i).len() == 0 && b.beam(i).len() == 0
    }) by {
        assert(b.nbrs(i) == nbr_spec(w, h, i % w, i / w));
    }
    lemma_walls_spec(data, data.len() as int);
    assert forall|k: int| 0 <= k < b.walls@.len() implies {
        &&& 0 <= #[trigger] b.wall_cell(k) < n
        &&& b.wall_digit(k) + 2 == b.cells@[b.wall_cell(k)]
    } by {
        assert(b.walls@[k] == walls_spec(data, data.len() as int)[k]);
    }
}

/// On a board built from a `w` by `h` grid, the beam of cell `i` lists each
/// cell once and holds cell `j` exactly when `i` is white and `j` is another
/// cell of its row or column with only white cells from `i` up to and
/// including `j`; `j` is then in the beam of `i` exactly when `i` is in the
/// beam of `j`.
pub proof fn lemma_board_beam(b: &Board, w: int, h: int, i: int, j: int)
    requires
        b.built_from(w, h, b.cells@),
        b.cells@.len() == w * h,
        w * h <= usize::MAX,
        h >= 0,
        0 <= i < w * h,
        0 <= j < w * h,
    ensures
        b.beam(i).no_duplicates(),
        b.beam(i).contains(j as usize) <==> (b.cells@[i] == 0 && sees(b.cells@, w, i % w, i / w, j % w, j / w)),
        b.beam(i).contains(j as usize) <==> b.beam(j).contains(i as usize),
{
    let data = b.cells@;
    lemma_split(w, h, i);
    lemma_split(w, h, j);
    assert(b.nbrs(i) == nbr_spec(w, h, i % w, i / w));
    assert(b.nbrs(j) == nbr_spec(w, h, j % w, j / w));
    lemma_beam_spec_exact(data, w, h, i % w, i / w, j % w, j / w);
    lemma_beam_spec_exact(data, w, h, j % w, j / w, i % w, i / w);
    if data[i] != 0 {
        assert(b.beam(i).len() == 0);
    }
    if data[j] != 0 {
        assert(b.beam(j).len() == 0);
    }
    lemma_board_wf(b, w, h);
    if b.beam(i).contains(j as usize) {
        let k = choose|k: int| 0 <= k < b.beam(i).len() && b.beam(i)[k] == j as usize;
        assert(b.beam(i)[k] as int == j);
    }
    if b.beam(j).contains(i as usize) {
        let k = choose|k: int| 0 <= k < b.beam(j).len() && b.beam(j)[k] == i as usize;
        assert(b.beam(j)[k] as int == i);
    }
}

/// A cell index of a `w` by `h` grid splits into its column and row.
pub proof fn lemma_split(w: int, h: int, i: int)
    requires
        0 <= i < w * h,
        h >= 0,
    ensures
        0 <= i % w < w,
        0 <= i / w < h,
        i == at(w, i % w, i / w),
{
    assert(w > 0) by (nonlinear_arith)
        requires 0 <= i < w * h, h >= 0;
    vstd::arithmetic::div_mod::lemma_fundamental_div_mod(i, w);
    vstd::arithmetic::div_mod::lemma_mod_bound(i, w);
    vstd::arithmetic::div_mod::lemma_div_pos_is_pos(i, w);
    assert(i / w < h) by (nonlinear_arith)
        requires i == w * (i / w) + i % w, 0 <= i % w, i < w * h, w > 0;
    assert(w * (i / w) == (i / w) * w) by (nonlinear_arith);
}

/// Every entry of `walls_spec` is a numbered wall with its clue.
pub proof fn lemma_walls_spec(data: Seq<u8>, m: int)
    requires
        m <= data.len(),
        data.len() <= usize::MAX,
    ensures
        forall|k: int| 0 <= k < walls_spec(data, m).len() ==> {
            &&& 0 <= (#[trigger] walls_spec(data, m)[k]).0 < m
            &&& walls_spec(data, m)[k].1 + 2 == data[walls_spec(data, m)[k].0 as int]
        },
    decreases m,
{
    if m > 0 {
        lemma_walls_spec(data, m - 1);
        let p = walls_spec(data, m - 1);
        if data[m - 1] >= 2 {
            assert(walls_spec(data, m) == p.push(((m - 1) as usize, (data[m - 1] - 2) as u32)));
        } else {
            assert(walls_spec(data, m) == p);
        }
        assert forall|k: int| 0 <= k < walls_spec(data, m).len() implies {
            &&& 0 <= (#[trigger] walls_spec(data, m)[k]).0 < m
            &&& walls_spec(data, m)[k].1 + 2 == data[walls_spec(data, m)[k].0 as int]
        } by {
            if k < p.len() {
                assert(walls_spec(data, m)[k] == p[k]);
            }
        }
    }
}

} // verus!
