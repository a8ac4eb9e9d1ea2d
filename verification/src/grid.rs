use vstd::prelude::*;

verus! {

/// The index of the cell in column `c`, row `r` of a grid `w` wide.
pub open spec fn at(w: int, c: int, r: int) -> int {
    r * w + c
}

/// The white cells to the right of (c, r), up to the first non-white cell
/// or the edge.
pub open spec fn ray_right(data: Seq<u8>, w: int, c: int, r: int) -> Seq<usize>
    decreases w - c,
{
    if c + 1 >= w || c + 1 < 1 || data[at(w, c + 1, r)] != 0 {
        Seq::empty()
    } else {
        seq![at(w, c + 1, r) as usize] + ray_right(data, w, c + 1, r)
    }
}

/// The white cells to the left of (c, r), up to the first non-white cell
/// or the edge.
pub open spec fn ray_left(data: Seq<u8>, w: int, c: int, r: int) -> Seq<usize>
    decreases c,
{
    if c <= 0 || data[at(w, c - 1, r)] != 0 {
        Seq::empty()
    } else {
        seq![at(w, c - 1, r) as usize] + ray_left(data, w, c - 1, r)
    }
}

/// The white cells below (c, r), up to the first non-white cell or the edge.
pub open spec fn ray_down(data: Seq<u8>, w: int, h: int, c: int, r: int) -> Seq<usize>
    decreases h - r,
{
    if r + 1 >= h || r + 1 < 1 || data[at(w, c, r + 1)] != 0 {
        Seq::empty()
    } else {
        seq![at(w, c, r + 1) as usize] + ray_down(data, w, h, c, r + 1)
    }
}

/// The white cells above (c, r), up to the first non-white cell or the edge.
pub open spec fn ray_up(data: Seq<u8>, w: int, c: int, r: int) -> Seq<usize>
    decreases r,
{
    if r <= 0 || data[at(w, c, r - 1)] != 0 {
        Seq::empty()
    } else {
        seq![at(w, c, r - 1) as usize] + ray_up(data, w, c, r - 1)
    }
}

/// The orthogonal neighbours of (c, r): left, right, up, down.
pub open spec fn nbr_spec(w: int, h: int, c: int, r: int) -> Seq<usize> {
    let s1 = if c > 0 { seq![at(w, c - 1, r) as usize] } else { Seq::empty() };
    let s2 = if c + 1 < w { s1.push(at(w, c + 1, r) as usize) } else { s1 };
    let s3 = if r > 0 { s2.push(at(w, c, r - 1) as usize) } else { s2 };
    if r + 1 < h { s3.push(at(w, c, r + 1) as usize) } else { s3 }
}

/// The cells a lamp on the white cell (c, r) lights: right, left, down, up.
pub open spec fn beam_spec(data: Seq<u8>, w: int, h: int, c: int, r: int) -> Seq<usize> {
    ray_right(data, w, c, r) + ray_left(data, w, c, r) + ray_down(data, w, h, c, r) + ray_up(data, w, c, r)
}

/// The numbered walls among the first `m` cells of `data`: (cell, clue).
pub open spec fn walls_spec(data: Seq<u8>, m: int) -> Seq<(usize, u32)>
    decreases m,
{
    if m <= 0 {
        Seq::empty()
    } else if data[m - 1] >= 2 {
        walls_spec(data, m - 1).push(((m - 1) as usize, (data[m - 1] - 2) as u32))
    } else {
        walls_spec(data, m - 1)
    }
}

/// Cells of a `w` by `h` grid have indices below `w * h`.
pub proof fn lemma_index(w: int, h: int, c: int, r: int)
    requires
        0 <= c < w,
        0 <= r < h,
    ensures
        0 <= at(w, c, r) < w * h,
{
    assert((r + 1) * w <= h * w) by (nonlinear_arith)
        requires
            r + 1 <= h,
            w >= 0,
    ;
    assert(h * w == w * h) by (nonlinear_arith);
    assert((r + 1) * w == r * w + w) by (nonlinear_arith);
    assert(r * w >= 0) by (nonlinear_arith)
        requires
            r >= 0,
            w >= 0,
    ;
}

/// A cell index determines its column and row.
pub proof fn lemma_coords(w: int, c: int, r: int)
    requires
        0 <= c < w,
        0 <= r,
    ensures
        at(w, c, r) % w == c,
        at(w, c, r) / w == r,
{
    vstd::arithmetic::div_mod::lemma_fundamental_div_mod_converse(at(w, c, r), w, r, c);
}

/// The `k`th cell of the right ray is `k + 1` columns right, and every cell
/// up to it is white.
pub proof fn lemma_ray_right(data: Seq<u8>, w: int, c: int, r: int, k: int)
    requires
        0 <= r,
        w * (r + 1) <= usize::MAX,
        0 <= k < ray_right(data, w, c, r).len(),
    ensures
        ray_right(data, w, c, r)[k] == at(w, c + k + 1, r),
        c + k + 1 < w,
        c + 1 >= 1,
        forall|c3: int| c < c3 <= c + k + 1 ==> #[trigger] data[at(w, c3, r)] == 0,
    decreases w - c,
{
    let rest = ray_right(data, w, c + 1, r);
    if ray_right(data, w, c, r).len() > 0 {
        assert(0 <= r * w && r * w + w == w * (r + 1)) by (nonlinear_arith)
            requires 0 <= r, 0 <= w;
    }
    assert(ray_right(data, w, c, r) == seq![ray_right(data, w, c, r)[0]] + rest);
    if k > 0 {
        lemma_ray_right(data, w, c + 1, r, k - 1);
        assert(ray_right(data, w, c, r)[k] == rest[k - 1]);
    }
}

/// A white run to the right reaches into the ray.
pub proof fn lemma_ray_right_reach(data: Seq<u8>, w: int, c: int, r: int, c2: int)
    requires
        0 <= c < c2 < w,
        forall|c3: int| c < c3 <= c2 ==> #[trigger] data[at(w, c3, r)] == 0,
    ensures
        ray_right(data, w, c, r).len() > c2 - c - 1,
    decreases w - c,
{
    assert(data[at(w, c + 1, r)] == 0);
    if c2 > c + 1 {
        lemma_ray_right_reach(data, w, c + 1, r, c2);
    }
}

/// The `k`th cell of the left ray is `k + 1` columns left, and every cell
/// up to it is white.
pub proof fn lemma_ray_left(data: Seq<u8>, w: int, c: int, r: int, k: int)
    requires
        0 <= r,
        c < w,
        w * (r + 1) <= usize::MAX,
        0 <= k < ray_left(data, w, c, r).len(),
    ensures
        ray_left(data, w, c, r)[k] == at(w, c - k - 1, r),
        c - k - 1 >= 0,
        forall|c3: int| c - k - 1 <= c3 < c ==> #[trigger] data[at(w, c3, r)] == 0,
    decreases c,
{
    let rest = ray_left(data, w, c - 1, r);
    if ray_left(data, w, c, r).len() > 0 {
        assert(0 <= r * w && r * w + w == w * (r + 1)) by (nonlinear_arith)
            requires 0 <= r, 0 <= w;
    }
    assert(ray_left(data, w, c, r) == seq![ray_left(data, w, c, r)[0]] + rest);
    if k > 0 {
        lemma_ray_left(data, w, c - 1, r, k - 1);
        assert(ray_left(data, w, c, r)[k] == rest[k - 1]);
    }
}

/// A white run to the left reaches into the ray.
pub proof fn lemma_ray_left_reach(data: Seq<u8>, w: int, c: int, r: int, c2: int)
    requires
        0 <= c2 < c,
        forall|c3: int| c2 <= c3 < c ==> #[trigger] data[at(w, c3, r)] == 0,
    ensures
        ray_left(data, w, c, r).len() > c - c2 - 1,
    decreases c,
{
    assert(data[at(w, c - 1, r)] == 0);
    if c2 < c - 1 {
        lemma_ray_left_reach(data, w, c - 1, r, c2);
    }
}

/// The `k`th cell of the downward ray is `k + 1` rows down, and every cell
/// up to it is white.
pub proof fn lemma_ray_down(data: Seq<u8>, w: int, h: int, c: int, r: int, k: int)
    requires
        0 <= c < w,
        0 <= r,
        w * h <= usize::MAX,
        0 <= k < ray_down(data, w, h, c, r).len(),
    ensures
        ray_down(data, w, h, c, r)[k] == at(w, c, r + k + 1),
        r + k + 1 < h,
        r + 1 >= 1,
        forall|r3: int| r < r3 <= r + k + 1 ==> #[trigger] data[at(w, c, r3)] == 0,
    decreases h - r,
{
    let rest = ray_down(data, w, h, c, r + 1);
    if ray_down(data, w, h, c, r).len() > 0 {
        lemma_index(w, h, c, r + 1);
    }
    assert(ray_down(data, w, h, c, r) == seq![ray_down(data, w, h, c, r)[0]] + rest);
    if k > 0 {
        lemma_ray_down(data, w, h, c, r + 1, k - 1);
        assert(ray_down(data, w, h, c, r)[k] == rest[k - 1]);
    }
}

/// A white run downwards reaches into the ray.
pub proof fn lemma_ray_down_reach(data: Seq<u8>, w: int, h: int, c: int, r: int, r2: int)
    requires
        0 <= r < r2 < h,
        forall|r3: int| r < r3 <= r2 ==> #[trigger] data[at(w, c, r3)] == 0,
    ensures
        ray_down(data, w, h, c, r).len() > r2 - r - 1,
    decreases h - r,
{
    assert(data[at(w, c, r + 1)] == 0);
    if r2 > r + 1 {
        lemma_ray_down_reach(data, w, h, c, r + 1, r2);
    }
}

/// The `k`th cell of the upward ray is `k + 1` rows up, and every cell up
/// to it is white.
pub proof fn lemma_ray_up(data: Seq<u8>, w: int, c: int, r: int, k: int)
    requires
        0 <= c < w,
        0 <= r,
        w * (r + 1) <= usize::MAX,
        0 <= k < ray_up(data, w, c, r).len(),
    ensures
        ray_up(data, w, c, r)[k] == at(w, c, r - k - 1),
        r - k - 1 >= 0,
        forall|r3: int| r - k - 1 <= r3 < r ==> #[trigger] data[at(w, c, r3)] == 0,
    decreases r,
{
    let rest = ray_up(data, w, c, r - 1);
    if ray_up(data, w, c, r).len() > 0 {
        lemma_index(w, r + 1, c, r - 1);
        assert(w * (r + 1) == (r + 1) * w) by (nonlinear_arith);
    }
    assert(ray_up(data, w, c, r) == seq![ray_up(data, w, c, r)[0]] + rest);
    if k > 0 {
        assert(w * r <= w * (r + 1)) by (nonlinear_arith)
            requires w >= 0, r >= 0;
        lemma_ray_up(data, w, c, r - 1, k - 1);
        assert(ray_up(data, w, c, r)[k] == rest[k - 1]);
    }
}

/// A white run upwards reaches into the ray.
pub proof fn lemma_ray_up_reach(data: Seq<u8>, w: int, c: int, r: int, r2: int)
    requires
        0 <= r2 < r,
        forall|r3: int| r2 <= r3 < r ==> #[trigger] data[at(w, c, r3)] == 0,
    ensures
        ray_up(data, w, c, r).len() > r - r2 - 1,
    decreases r,
{
    assert(data[at(w, c, r - 1)] == 0);
    if r2 < r - 1 {
        lemma_ray_up_reach(data, w, c, r - 1, r2);
    }
}

/// The neighbours of (c, r), in the order left, right, up, down.
pub fn cell_neighbors(w: usize, h: usize, c: usize, r: usize) -> (nb: Vec<usize>)
    requires
        c < w,
        r < h,
        w * h <= usize::MAX,
    ensures
        nb@ == nbr_spec(w as int, h as int, c as int, r as int),
{
    proof {
        lemma_index(w as int, h as int, c as int, r as int);
    }
    let i = r * w + c;
    let mut nb: Vec<usize> = Vec::new();
    if c > 0 {
        nb.push(i - 1);
    }
    if c + 1 < w {
        nb.push(i + 1);
    }
    if r > 0 {
        proof {
            assert(r * w >= w) by (nonlinear_arith)
                requires
                    r >= 1,
                    w >= 0,
            ;
        }
        nb.push(i - w);
    }
    if r + 1 < h {
        proof {
            lemma_index(w as int, h as int, c as int, r + 1);
            assert(at(w as int, c as int, r + 1) == at(w as int, c as int, r as int) + w) by (nonlinear_arith);
        }
        nb.push(i + w);
    }
    proof {
        let w = w as int;
        let c = c as int;
        let r = r as int;
        assert(at(w, c, r - 1) == at(w, c, r) - w) by (nonlinear_arith);
        assert(at(w, c, r + 1) == at(w, c, r) + w) by (nonlinear_arith);
        assert(nb@ =~= nbr_spec(w, h as int, c, r));
    }
    nb
}

/// The cells a lamp on the white cell (c, r) lights, in the order right,
/// left, down, up, each ray ending at a non-white cell or the edge.
pub fn lamp_cells(data: &[u8], w: usize, h: usize, c: usize, r: usize) -> (v: Vec<usize>)
    requires
        c < w,
        r < h,
        w * h <= usize::MAX,
        data@.len() >= w * h,
    ensures
        v@ == beam_spec(data@, w as int, h as int, c as int, r as int),
{
    let ghost d = data@;
    let ghost wi = w as int;
    let ghost hi = h as int;
    let mut v: Vec<usize> = Vec::new();
    // right
    let mut cur = c;
    loop
        invariant
            c <= cur < w,
            r < h,
            w * h <= usize::MAX,
            data@.len() >= w * h,
            wi == w,
            hi == h,
            d == data@,
            v@ + ray_right(d, wi, cur as int, r as int) == ray_right(d, wi, c as int, r as int),
        ensures
            v@ == ray_right(d, wi, c as int, r as int),
        decreases w - cur,
    {
        if cur + 1 < w {
            proof {
                lemma_index(wi, hi, cur + 1, r as int);
            }
            let j = r * w + cur + 1;
            if data[j] == 0 {
                let ghost before = v@;
                v.push(j);
                proof {
                    assert(ray_right(d, wi, cur as int, r as int) == seq![j] + ray_right(d, wi, cur + 1, r as int));
                    assert(v@ + ray_right(d, wi, cur + 1, r as int) =~= before + ray_right(d, wi, cur as int, r as int));
                }
                cur += 1;
                continue;
            }
        }
        proof {
            assert(ray_right(d, wi, cur as int, r as int) =~= Seq::<usize>::empty());
            assert(v@ =~= v@ + ray_right(d, wi, cur as int, r as int));
        }
        break;
    }
    let ghost after_right = v@;
    assert(after_right == ray_right(d, wi, c as int, r as int));
    // left
    let mut cur = c;
    loop
        invariant
            cur <= c < w,
            r < h,
            w * h <= usize::MAX,
            data@.len() >= w * h,
            wi == w,
            hi == h,
            d == data@,
            v@ + ray_left(d, wi, cur as int, r as int) == after_right + ray_left(d, wi, c as int, r as int),
        ensures
            v@ == after_right + ray_left(d, wi, c as int, r as int),
        decreases cur,
    {
        if cur > 0 {
            proof {
                lemma_index(wi, hi, cur - 1, r as int);
            }
            let j = r * w + cur - 1;
            if data[j] == 0 {
                let ghost before = v@;
                v.push(j);
                proof {
                    assert(ray_left(d, wi, cur as int, r as int) == seq![j] + ray_left(d, wi, cur - 1, r as int));
                    assert(v@ + ray_left(d, wi, cur - 1, r as int) =~= before + ray_left(d, wi, cur as int, r as int));
                }
                cur -= 1;
                continue;
            }
        }
        proof {
            assert(ray_left(d, wi, cur as int, r as int) =~= Seq::<usize>::empty());
            assert(v@ =~= v@ + ray_left(d, wi, cur as int, r as int));
        }
        break;
    }
    let ghost after_left = v@;
    // down
    let mut cur = r;
    loop
        invariant
            c < w,
            r <= cur < h,
            w * h <= usize::MAX,
            data@.len() >= w * h,
            wi == w,
            hi == h,
            d == data@,
            v@ + ray_down(d, wi, hi, c as int, cur as int) == after_left + ray_down(d, wi, hi, c as int, r as int),
        ensures
            v@ == after_left + ray_down(d, wi, hi, c as int, r as int),
        decreases h - cur,
    {
        if cur + 1 < h {
            proof {
                lemma_index(wi, hi, c as int, cur + 1);
            }
            let j = (cur + 1) * w + c;
            if data[j] == 0 {
                let ghost before = v@;
                v.push(j);
                proof {
                    assert(ray_down(d, wi, hi, c as int, cur as int) == seq![j] + ray_down(d, wi, hi, c as int, cur + 1));
                    assert(v@ + ray_down(d, wi, hi, c as int, cur + 1) =~= before + ray_down(d, wi, hi, c as int, cur as int));
                }
                cur += 1;
                continue;
            }
        }
        proof {
            assert(ray_down(d, wi, hi, c as int, cur as int) =~= Seq::<usize>::empty());
            assert(v@ =~= v@ + ray_down(d, wi, hi, c as int, cur as int));
        }
        break;
    }
    let ghost after_down = v@;
    // up
    let mut cur = r;
    loop
        invariant
            c < w,
            cur <= r < h,
            w * h <= usize::MAX,
            data@.len() >= w * h,
            wi == w,
            hi == h,
            d == data@,
            v@ + ray_up(d, wi, c as int, cur as int) == after_down + ray_up(d, wi, c as int, r as int),
        ensures
            v@ == after_down + ray_up(d, wi, c as int, r as int),
        decreases cur,
    {
        if cur > 0 {
            proof {
                lemma_index(wi, hi, c as int, cur - 1);
            }
            let j = (cur - 1) * w + c;
            if data[j] == 0 {
                let ghost before = v@;
                v.push(j);
                proof {
                    assert(ray_up(d, wi, c as int, cur as int) == seq![j] + ray_up(d, wi, c as int, cur - 1));
                    assert(v@ + ray_up(d, wi, c as int, cur - 1) =~= before + ray_up(d, wi, c as int, cur as int));
                }
                cur -= 1;
                continue;
            }
        }
        proof {
            assert(ray_up(d, wi, c as int, cur as int) =~= Seq::<usize>::empty());
            assert(v@ =~= v@ + ray_up(d, wi, c as int, cur as int));
        }
        break;
    }
    assert(v@ == beam_spec(d, wi, hi, c as int, r as int));
    v
}


/// A lamp on white cell (c, r) lights `beam_spec(..)[k]`, a white cell
/// other than (c, r) whose own beam holds (c, r).
pub proof fn lemma_beam_sym(data: Seq<u8>, w: int, h: int, c: int, r: int, k: int)
    requires
        0 <= c < w,
        0 <= r < h,
        w * h <= usize::MAX,
        data.len() >= w * h,
        data[at(w, c, r)] == 0,
        0 <= k < beam_spec(data, w, h, c, r).len(),
    ensures
        ({
            let j = beam_spec(data, w, h, c, r)[k] as int;
            exists|c2: int, r2: int| {
                &&& 0 <= c2 < w
                &&& 0 <= r2 < h
                &&& j == at(w, c2, r2)
                &&& (c2 != c || r2 != r)
                &&& data[at(w, c2, r2)] == 0
                &&& beam_spec(data, w, h, c2, r2).contains(at(w, c, r) as usize)
            }
        }),
{
    let rr = ray_right(data, w, c, r);
    let rl = ray_left(data, w, c, r);
    let rd = ray_down(data, w, h, c, r);
    let ru = ray_up(data, w, c, r);
    let bs = beam_spec(data, w, h, c, r);
    assert(bs == rr + rl + rd + ru);
    assert(w * (r + 1) <= w * h) by (nonlinear_arith)
        requires r + 1 <= h, w >= 0;
    lemma_index(w, h, c, r);
    if k < rr.len() {
        lemma_ray_right(data, w, c, r, k);
        let c2 = c + k + 1;
        assert(bs[k] == rr[k]);
        assert(data[at(w, c2, r)] == 0);
        assert(forall|c3: int| c <= c3 < c2 ==> #[trigger] data[at(w, c3, r)] == 0) by {
            assert forall|c3: int| c <= c3 < c2 implies #[trigger] data[at(w, c3, r)] == 0 by {
                if c3 > c {
                    assert(data[at(w, c3, r)] == 0);
                }
            }
        }
        lemma_ray_left_reach(data, w, c2, r, c);
        lemma_ray_left(data, w, c2, r, k);
        let b2 = beam_spec(data, w, h, c2, r);
        let rr2 = ray_right(data, w, c2, r);
        let rl2 = ray_left(data, w, c2, r);
        assert(b2 == rr2 + rl2 + ray_down(data, w, h, c2, r) + ray_up(data, w, c2, r));
        assert(b2[rr2.len() + k] == rl2[k]);
        lemma_index(w, h, c2, r);
        assert(b2.contains(at(w, c, r) as usize));
    } else if k < rr.len() + rl.len() {
        let kk = k - rr.len();
        lemma_ray_left(data, w, c, r, kk);
        let c2 = c - kk - 1;
        assert(bs[k] == rl[kk]);
        assert(forall|c3: int| c2 < c3 <= c ==> #[trigger] data[at(w, c3, r)] == 0) by {
            assert forall|c3: int| c2 < c3 <= c implies #[trigger] data[at(w, c3, r)] == 0 by {
                if c3 < c {
                    assert(data[at(w, c3, r)] == 0);
                }
            }
        }
        lemma_ray_right_reach(data, w, c2, r, c);
        lemma_ray_right(data, w, c2, r, kk);
        let b2 = beam_spec(data, w, h, c2, r);
        let rr2 = ray_right(data, w, c2, r);
        assert(b2 == rr2 + ray_left(data, w, c2, r) + ray_down(data, w, h, c2, r) + ray_up(data, w, c2, r));
        assert(b2[kk] == rr2[kk]);
        lemma_index(w, h, c2, r);
        assert(b2.contains(at(w, c, r) as usize));
    } else if k < rr.len() + rl.len() + rd.len() {
        let kk = k - rr.len() - rl.len();
        lemma_ray_down(data, w, h, c, r, kk);
        let r2 = r + kk + 1;
        assert(bs[k] == rd[kk]);
        assert(forall|r3: int| r <= r3 < r2 ==> #[trigger] data[at(w, c, r3)] == 0) by {
            assert forall|r3: int| r <= r3 < r2 implies #[trigger] data[at(w, c, r3)] == 0 by {
                if r3 > r {
                    assert(data[at(w, c, r3)] == 0);
                }
            }
        }
        assert(w * (r2 + 1) <= w * h) by (nonlinear_arith)
            requires r2 + 1 <= h, w >= 0;
        lemma_ray_up_reach(data, w, c, r2, r);
        lemma_ray_up(data, w, c, r2, kk);
        let b2 = beam_spec(data, w, h, c, r2);
        let ru2 = ray_up(data, w, c, r2);
        let pre = ray_right(data, w, c, r2) + ray_left(data, w, c, r2) + ray_down(data, w, h, c, r2);
        assert(b2 == pre + ru2);
        assert(b2[pre.len() + kk] == ru2[kk]);
        lemma_index(w, h, c, r2);
        assert(b2.contains(at(w, c, r) as usize));
    } else {
        let kk = k - rr.len() - rl.len() - rd.len();
        lemma_ray_up(data, w, c, r, kk);
        let r2 = r - kk - 1;
        assert(bs[k] == ru[kk]);
        assert(forall|r3: int| r2 < r3 <= r ==> #[trigger] data[at(w, c, r3)] == 0) by {
            assert forall|r3: int| r2 < r3 <= r implies #[trigger] data[at(w, c, r3)] == 0 by {
                if r3 < r {
                    assert(data[at(w, c, r3)] == 0);
                }
            }
        }
        lemma_ray_down_reach(data, w, h, c, r2, r);
        lemma_ray_down(data, w, h, c, r2, kk);
        let b2 = beam_spec(data, w, h, c, r2);
        let rd2 = ray_down(data, w, h, c, r2);
        let pre = ray_right(data, w, c, r2) + ray_left(data, w, c, r2);
        assert(b2 == pre + rd2 + ray_up(data, w, c, r2));
        assert(b2[pre.len() + kk] == rd2[kk]);
        lemma_index(w, h, c, r2);
        assert(b2.contains(at(w, c, r) as usize));
    }
}

/// A lamp on (c, r) lights (c2, r2): another cell of its row or column,
/// with only white cells from (c, r) up to and including (c2, r2).
pub open spec fn sees(data: Seq<u8>, w: int, c: int, r: int, c2: int, r2: int) -> bool {
    ||| r2 == r && c < c2 && forall|c3: int| c < c3 <= c2 ==> #[trigger] data[at(w, c3, r)] == 0
    ||| r2 == r && c2 < c && forall|c3: int| c2 <= c3 < c ==> #[trigger] data[at(w, c3, r)] == 0
    ||| c2 == c && r < r2 && forall|r3: int| r < r3 <= r2 ==> #[trigger] data[at(w, c, r3)] == 0
    ||| c2 == c && r2 < r && forall|r3: int| r2 <= r3 < r ==> #[trigger] data[at(w, c, r3)] == 0
}

/// The cell at position `k` of the beam of (c, r), by its column and row:
/// `k + 1` cells right along the right ray, then left, down and up.
proof fn lemma_beam_entry(data: Seq<u8>, w: int, h: int, c: int, r: int, k: int) -> (e: (int, int))
    requires
        0 <= c < w,
        0 <= r < h,
        w * h <= usize::MAX,
        0 <= k < beam_spec(data, w, h, c, r).len(),
    ensures
        0 <= e.0 < w,
        0 <= e.1 < h,
        beam_spec(data, w, h, c, r)[k] == at(w, e.0, e.1),
        sees(data, w, c, r, e.0, e.1),
        ({
            let nr = ray_right(data, w, c, r).len() as int;
            let nl = ray_left(data, w, c, r).len() as int;
            let nd = ray_down(data, w, h, c, r).len() as int;
            &&& k < nr ==> e == (c + k + 1, r)
            &&& nr <= k < nr + nl ==> e == (c - (k - nr) - 1, r)
            &&& nr + nl <= k < nr + nl + nd ==> e == (c, r + (k - nr - nl) + 1)
            &&& nr + nl + nd <= k ==> e == (c, r - (k - nr - nl - nd) - 1)
        }),
{
    let rr = ray_right(data, w, c, r);
    let rl = ray_left(data, w, c, r);
    let rd = ray_down(data, w, h, c, r);
    let ru = ray_up(data, w, c, r);
    let bs = beam_spec(data, w, h, c, r);
    assert(bs == rr + rl + rd + ru);
    assert(w * (r + 1) <= w * h) by (nonlinear_arith)
        requires r + 1 <= h, w >= 0;
    if k < rr.len() {
        lemma_ray_right(data, w, c, r, k);
        assert(bs[k] == rr[k]);
        (c + k + 1, r)
    } else if k < rr.len() + rl.len() {
        let kk = k - rr.len();
        lemma_ray_left(data, w, c, r, kk);
        assert(bs[k] == rl[kk]);
        (c - kk - 1, r)
    } else if k < rr.len() + rl.len() + rd.len() {
        let kk = k - rr.len() - rl.len();
        lemma_ray_down(data, w, h, c, r, kk);
        assert(bs[k] == rd[kk]);
        (c, r + kk + 1)
    } else {
        let kk = k - rr.len() - rl.len() - rd.len();
        lemma_ray_up(data, w, c, r, kk);
        assert(bs[k] == ru[kk]);
        (c, r - kk - 1)
    }
}

/// Two cells of the grid are the same cell only at the same column and row.
pub proof fn lemma_at_injective(w: int, c: int, r: int, c2: int, r2: int)
    requires
        0 <= c < w,
        0 <= c2 < w,
        0 <= r,
        0 <= r2,
        at(w, c, r) == at(w, c2, r2),
    ensures
        c == c2,
        r == r2,
{
    lemma_coords(w, c, r);
    lemma_coords(w, c2, r2);
}

/// The beam of a cell lists each cell once, and holds exactly the cells
/// that a lamp on it sees along its row and column.
pub proof fn lemma_beam_spec_exact(data: Seq<u8>, w: int, h: int, c: int, r: int, c2: int, r2: int)
    requires
        0 <= c < w,
        0 <= r < h,
        0 <= c2 < w,
        0 <= r2 < h,
        w * h <= usize::MAX,
    ensures
        beam_spec(data, w, h, c, r).no_duplicates(),
        beam_spec(data, w, h, c, r).contains(at(w, c2, r2) as usize) <==> sees(data, w, c, r, c2, r2),
{
    let rr = ray_right(data, w, c, r);
    let rl = ray_left(data, w, c, r);
    let rd = ray_down(data, w, h, c, r);
    let ru = ray_up(data, w, c, r);
    let bs = beam_spec(data, w, h, c, r);
    assert(bs == rr + rl + rd + ru);
    lemma_index(w, h, c2, r2);
    assert forall|a: int, b: int| 0 <= a < bs.len() && 0 <= b < bs.len() && a != b implies bs[a] != bs[b] by {
        let ea = lemma_beam_entry(data, w, h, c, r, a);
        let eb = lemma_beam_entry(data, w, h, c, r, b);
        if bs[a] == bs[b] {
            lemma_index(w, h, ea.0, ea.1);
            lemma_index(w, h, eb.0, eb.1);
            lemma_at_injective(w, ea.0, ea.1, eb.0, eb.1);
        }
    }
    if bs.contains(at(w, c2, r2) as usize) {
        let k = choose|k: int| 0 <= k < bs.len() && bs[k] == at(w, c2, r2) as usize;
        let e = lemma_beam_entry(data, w, h, c, r, k);
        lemma_index(w, h, e.0, e.1);
        lemma_at_injective(w, e.0, e.1, c2, r2);
    }
    if sees(data, w, c, r, c2, r2) {
        assert(w * (r + 1) <= w * h) by (nonlinear_arith)
            requires r + 1 <= h, w >= 0;
        let k: int = if r2 == r && c < c2 {
            lemma_ray_right_reach(data, w, c, r, c2);
            lemma_ray_right(data, w, c, r, c2 - c - 1);
            c2 - c - 1
        } else if r2 == r && c2 < c {
            lemma_ray_left_reach(data, w, c, r, c2);
            lemma_ray_left(data, w, c, r, c - c2 - 1);
            rr.len() + (c - c2 - 1)
        } else if c2 == c && r < r2 {
            lemma_ray_down_reach(data, w, h, c, r, r2);
            lemma_ray_down(data, w, h, c, r, r2 - r - 1);
            rr.len() + rl.len() + (r2 - r - 1)
        } else {
            lemma_ray_up_reach(data, w, c, r, r2);
            lemma_ray_up(data, w, c, r, r - r2 - 1);
            rr.len() + rl.len() + rd.len() + (r - r2 - 1)
        };
        assert(bs[k] == at(w, c2, r2) as usize);
    }
}

/// The neighbour list of a cell has at most four entries, all in the grid
/// and distinct.
pub proof fn lemma_nbr_spec(w: int, h: int, c: int, r: int)
    requires
        0 <= c < w,
        0 <= r < h,
        w * h <= usize::MAX,
    ensures
        nbr_spec(w, h, c, r).len() <= 4,
        nbr_spec(w, h, c, r).no_duplicates(),
        forall|k: int| 0 <= k < nbr_spec(w, h, c, r).len() ==> #[trigger] nbr_spec(w, h, c, r)[k] < w * h,
{
    lemma_index(w, h, c, r);
    if c > 0 {
        lemma_index(w, h, c - 1, r);
    }
    if c + 1 < w {
        lemma_index(w, h, c + 1, r);
    }
    if r > 0 {
        lemma_index(w, h, c, r - 1);
    }
    if r + 1 < h {
        lemma_index(w, h, c, r + 1);
    }
    assert(at(w, c, r - 1) == at(w, c, r) - w) by (nonlinear_arith);
    assert(at(w, c, r + 1) == at(w, c, r) + w) by (nonlinear_arith);
    let s = nbr_spec(w, h, c, r);
    assert forall|a: int, b: int| 0 <= a < s.len() && 0 <= b < s.len() && a != b implies s[a] != s[b] by {
    }
}

} // verus!
