//! The minimum-cost vertical seam of an energy grid, found by a row-by-row cascade of
//! cumulative costs and read back by walking from the cheapest cell of the last row upwards.
//!
//! A seam lists one column per row, from the last row up to the first.
use crate::kernel::{
    grid_from, lemma_grid_ext, lemma_index_in_bounds, lemma_grid_from, lemma_set_at, GridView, VecKernel,
};
use vstd::math::min;
use vstd::prelude::*;

verus! {

/// A grid of energies, one per pixel.
pub type WeightImage = VecKernel<u32>;

/// The largest energy a cell can hold.
pub const MAX_ENERGY: u64 = 4294967295;

/// The energy of the cell at `(x, y)`.
pub open spec fn energy(e: GridView<u32>, x: int, y: int) -> int {
    e.at(x, y) as int
}

/// The least total energy of a connected path from the first row down to `(x, y)`.
///
/// A cell of row `y > 0` continues the cheapest of the cells above-left, above and above-right
/// of it that lie inside the grid.
pub open spec fn cum(e: GridView<u32>, x: int, y: int) -> int
    decreases y,
{
    if y <= 0 {
        energy(e, x, 0)
    } else {
        let c = cum(e, x, y - 1);
        let l = if x > 0 {
            min(c, cum(e, x - 1, y - 1))
        } else {
            c
        };
        let m = if x + 1 < e.width {
            min(l, cum(e, x + 1, y - 1))
        } else {
            l
        };
        energy(e, x, y) + m
    }
}

/// The grid of cumulative costs of `e`.
pub open spec fn cum_grid(e: GridView<u32>) -> GridView<u64> {
    grid_from(e.width, e.height, |x: int, y: int| cum(e, x, y) as u64)
}

/// The first column among `0..n` whose cell in the last row of `c` is least.
pub open spec fn first_min(c: GridView<u64>, n: int) -> int
    decreases n,
{
    if n <= 1 {
        0
    } else {
        let b = first_min(c, n - 1);
        if c.at(n - 1, c.height - 1) < c.at(b, c.height - 1) {
            n - 1
        } else {
            b
        }
    }
}

/// Of the cells above-left, above and above-right of `(x, y)` that lie inside `c`, the column
/// of the first one of least value, in that order.
pub open spec fn pick(c: GridView<u64>, x: int, y: int) -> int {
    let b = if x > 0 && c.at(x - 1, y - 1) <= c.at(x, y - 1) {
        x - 1
    } else {
        x
    };
    if x + 1 < c.width && c.at(x + 1, y - 1) < c.at(b, y - 1) {
        x + 1
    } else {
        b
    }
}

/// The columns visited by walking up from `(x, y)` to the first row, always to `pick`.
pub open spec fn trace(c: GridView<u64>, x: int, y: int) -> Seq<int>
    decreases y,
{
    if y <= 0 {
        seq![x]
    } else {
        seq![x] + trace(c, pick(c, x, y), y - 1)
    }
}

/// The seam that the search selects in `e`.
pub open spec fn seam_of(e: GridView<u32>) -> Seq<int> {
    let c = cum_grid(e);
    trace(c, first_min(c, e.width as int), e.height - 1)
}

/// `s` holds one column per row of a `w`×`h` grid, and columns of neighbouring rows are at
/// most one apart.
pub open spec fn is_seam(s: Seq<int>, w: nat, h: nat) -> bool {
    &&& s.len() == h
    &&& forall|k: int| 0 <= k < h ==> 0 <= #[trigger] s[k] < w
    &&& forall|k: int| 0 <= k < h - 1 ==> -1 <= #[trigger] s[k + 1] - s[k] <= 1
}

/// The total energy of the cells of `s`, whose first entry lies in row `y` and each next one
/// in the row above.
pub open spec fn cost_from(e: GridView<u32>, s: Seq<int>, y: int) -> int
    decreases s.len(),
{
    if s.len() == 0 {
        0
    } else {
        energy(e, s[0], y) + cost_from(e, s.drop_first(), y - 1)
    }
}

/// The total energy of seam `s` of `e`.
pub open spec fn seam_cost(e: GridView<u32>, s: Seq<int>) -> int {
    cost_from(e, s, e.height - 1)
}

/// The result of a seam search: the cumulative costs, and the cheapest cell of the last row.
#[derive(Debug, Clone)]
pub struct LowestDerivative {
    target: VecKernel<u64>,
    best_x: usize,
    best_weight: u64,
}

impl LowestDerivative {
    pub closed spec fn weights_view(&self) -> GridView<u64> {
        self.target@
    }

    pub closed spec fn best_x_view(&self) -> int {
        self.best_x as int
    }

    pub closed spec fn weight_view(&self) -> int {
        self.best_weight as int
    }

    /// The seam this result describes.
    pub open spec fn seam_view(&self) -> Seq<int> {
        trace(self.weights_view(), self.best_x_view(), self.weights_view().height - 1)
    }

    /// The cumulative costs form a grid with at least one cell, and the chosen column lies in
    /// its last row.
    pub open spec fn wf(&self) -> bool {
        &&& self.weights_view().wf()
        &&& self.weights_view().height > 0
        &&& 0 <= self.best_x_view() < self.weights_view().width
    }

    /// This is the search's result on `e`.
    pub open spec fn found_in(&self, e: GridView<u32>) -> bool {
        &&& self.weights_view() == cum_grid(e)
        &&& self.best_x_view() == first_min(cum_grid(e), e.width as int)
        &&& self.weight_view() == cum(e, self.best_x_view(), e.height - 1)
    }
}

/// A cumulative cost is at least zero and at most `y + 1` times the largest energy.
pub proof fn lemma_cum_bounds(e: GridView<u32>, x: int, y: int)
    requires
        0 <= y,
    ensures
        0 <= cum(e, x, y) <= (y + 1) * MAX_ENERGY,
    decreases y,
{
    if y > 0 {
        lemma_cum_bounds(e, x, y - 1);
        lemma_cum_bounds(e, x - 1, y - 1);
        lemma_cum_bounds(e, x + 1, y - 1);
        assert((y + 1) * MAX_ENERGY == y * MAX_ENERGY + MAX_ENERGY) by (nonlinear_arith);
    }
}

/// In a grid of at most `MAX_ENERGY` rows every cumulative cost fits in a `u64`.
proof fn lemma_cum_fits(e: GridView<u32>, x: int, y: int)
    requires
        0 <= y < e.height,
        e.height <= MAX_ENERGY,
    ensures
        0 <= cum(e, x, y) <= u64::MAX,
        cum(e, x, y) as u64 == cum(e, x, y),
{
    lemma_cum_bounds(e, x, y);
    assert((y + 1) * MAX_ENERGY <= MAX_ENERGY * MAX_ENERGY) by (nonlinear_arith)
        requires
            y + 1 <= MAX_ENERGY,
    ;
}

/// The cells of `cum_grid(e)` are the cumulative costs themselves.
proof fn lemma_cum_grid(e: GridView<u32>)
    requires
        e.height <= MAX_ENERGY,
    ensures
        cum_grid(e).wf(),
        cum_grid(e).width == e.width,
        cum_grid(e).height == e.height,
        forall|x: int, y: int|
            0 <= x < e.width && 0 <= y < e.height ==> #[trigger] cum_grid(e).at(x, y) as int == cum(
                e,
                x,
                y,
            ),
{
    lemma_grid_from(e.width, e.height, |x: int, y: int| cum(e, x, y) as u64);
    assert forall|x: int, y: int| 0 <= x < e.width && 0 <= y < e.height implies #[trigger] cum_grid(
        e,
    ).at(x, y) as int == cum(e, x, y) by {
        lemma_cum_fits(e, x, y);
    }
}

impl LowestDerivative {
    /// Runs the cascade of cumulative costs over `target` and picks the cheapest cell of the
    /// last row, the first one on equal costs. The grid must hold at least one cell; with at
    /// most `MAX_ENERGY` rows every cumulative cost fits a `u64`.
    pub fn find(target: WeightImage) -> (r: LowestDerivative)
        requires
            target.wf(),
            target@.width > 0,
            target@.height > 0,
            target@.height <= MAX_ENERGY,
        ensures
            r.wf(),
            r.found_in(target@),
            r.seam_view() == seam_of(target@),
            is_seam(r.seam_view(), target@.width, target@.height),
            seam_cost(target@, r.seam_view()) == r.weight_view(),
    {
        let ghost e = target@;
        let (w, h) = target.size();
        let energies = target.into_vec();
        let mut wide: Vec<u64> = Vec::new();
        let mut i: usize = 0;
        while i < energies.len()
            invariant
                i <= energies@.len(),
                wide@.len() == i,
                forall|j: int| 0 <= j < i ==> wide@[j] == energies@[j] as u64,
            decreases energies@.len() - i,
        {
            wide.push(energies[i] as u64);
            i = i + 1;
        }
        let mut weights = VecKernel::from_vec(w, h, wide);
        assert forall|x: int, y: int| 0 <= x < w && 0 <= y < h implies #[trigger] weights@.at(
            x,
            y,
        ) as int == e.at(x, y) as int by {
            lemma_index_in_bounds(w as int, h as int, x, y);
        }
        let mut y: usize = 1;
        while y < h
            invariant
                weights.wf(),
                weights@.width == w,
                weights@.height == h,
                e.width == w,
                e.height == h,
                h <= MAX_ENERGY,
                1 <= y <= h,
                forall|xx: int, yy: int|
                    0 <= xx < w && 0 <= yy < y ==> #[trigger] weights@.at(xx, yy) as int == cum(
                        e,
                        xx,
                        yy,
                    ),
                forall|xx: int, yy: int|
                    0 <= xx < w && y <= yy < h ==> #[trigger] weights@.at(xx, yy) as int == e.at(
                        xx,
                        yy,
                    ) as int,
            decreases h - y,
        {
            let mut x: usize = 0;
            while x < w
                invariant
                    weights.wf(),
                    weights@.width == w,
                    weights@.height == h,
                    e.width == w,
                    e.height == h,
                    h <= MAX_ENERGY,
                    1 <= y < h,
                    0 <= x <= w,
                    forall|xx: int, yy: int|
                        0 <= xx < w && 0 <= yy < y ==> #[trigger] weights@.at(xx, yy) as int == cum(
                            e,
                            xx,
                            yy,
                        ),
                    forall|xx: int| 0 <= xx < x ==> #[trigger] weights@.at(xx, y as int) as int == cum(
                        e,
                        xx,
                        y as int,
                    ),
                    forall|xx: int, yy: int|
                        0 <= xx < w && y <= yy < h && !(yy == y && xx < x)
                            ==> #[trigger] weights@.at(xx, yy) as int == e.at(xx, yy) as int,
                decreases w - x,
            {
                proof {
                    lemma_cum_bounds(e, x as int, y - 1);
                    lemma_cum_bounds(e, x - 1, y - 1);
                    lemma_cum_bounds(e, x + 1, y - 1);
                    lemma_cum_bounds(e, x as int, y as int);
                    lemma_cum_fits(e, x as int, y as int);
                }
                let mut best = *weights.get(x, y - 1);
                if x > 0 {
                    let l = *weights.get(x - 1, y - 1);
                    if l < best {
                        best = l;
                    }
                }
                if x + 1 < w {
                    let r = *weights.get(x + 1, y - 1);
                    if r < best {
                        best = r;
                    }
                }
                let own = *weights.get(x, y);
                assert(own as int + best as int == cum(e, x as int, y as int));
                let v = own + best;
                proof {
                    lemma_set_at(weights@, x as int, y as int, v);
                }
                weights.put(x, y, v);
                x = x + 1;
            }
            y = y + 1;
        }
        proof {
            lemma_cum_grid(e);
            lemma_grid_ext(weights@, cum_grid(e));
        }
        let mut best_x: usize = 0;
        let mut best_weight: u64 = *weights.get(0, h - 1);
        let mut x: usize = 1;
        while x < w
            invariant
                weights.wf(),
                weights@ == cum_grid(e),
                weights@.width == w,
                weights@.height == h,
                e.width == w,
                e.height == h,
                h > 0,
                1 <= x <= w,
                0 <= best_x < x,
                best_x == first_min(weights@, x as int),
                best_weight == weights@.at(best_x as int, h - 1),
            decreases w - x,
        {
            let v = *weights.get(x, h - 1);
            if v < best_weight {
                best_x = x;
                best_weight = v;
            }
            x = x + 1;
        }
        let r = LowestDerivative { target: weights, best_x, best_weight };
        proof {
            lemma_seam_is_valid(e, r);
            lemma_weight_is_minimum(e, r, r.seam_view());
        }
        r
    }
}

impl LowestDerivative {
    /// The total cumulative cost of the selected seam.
    pub fn weight(&self) -> (r: u64)
        ensures
            r == self.weight_view(),
    {
        self.best_weight
    }

    /// The grid of cumulative costs.
    pub fn weights(&self) -> (r: &VecKernel<u64>)
        ensures
            r@ == self.weights_view(),
    {
        &self.target
    }

    /// Walks the selected seam, from the last row up to the first.
    pub fn iter(&self) -> (r: LowestDerivativeSeam<'_>)
        requires
            self.wf(),
        ensures
            r.wf(),
            r.source() == *self,
            r.remaining() == self.seam_view(),
    {
        let h = self.target.height();
        LowestDerivativeSeam { target: self, iter_pos: Some((self.best_x, h - 1)) }
    }

    /// The selected seam, from the last row up to the first.
    pub fn seam(&self) -> (r: Vec<usize>)
        requires
            self.wf(),
        ensures
            r@.map_values(|v: usize| v as int) == self.seam_view(),
    {
        let mut it = self.iter();
        let mut out: Vec<usize> = Vec::new();
        loop
            invariant
                it.wf(),
                it.source() == *self,
                out@.map_values(|v: usize| v as int) + it.remaining() == self.seam_view(),
            decreases it.remaining().len(),
        {
            let ghost before = out@;
            match it.next() {
                Some(x) => {
                    out.push(x);
                    assert(out@.map_values(|v: usize| v as int) =~= before.map_values(
                        |v: usize| v as int,
                    ).push(x as int));
                },
                None => {
                    assert(it.remaining() =~= Seq::<int>::empty());
                    assert(out@.map_values(|v: usize| v as int) + it.remaining() =~= out@.map_values(
                        |v: usize| v as int,
                    ));
                    return out;
                },
            }
        }
    }
}

/// A walk along the seam of a search result, one row at a time.
#[derive(Debug, Clone)]
pub struct LowestDerivativeSeam<'a> {
    target: &'a LowestDerivative,
    iter_pos: Option<(usize, usize)>,
}

impl<'a> LowestDerivativeSeam<'a> {
    pub closed spec fn source(&self) -> LowestDerivative {
        *self.target
    }

    /// The columns still to come.
    pub closed spec fn remaining(&self) -> Seq<int> {
        match self.iter_pos {
            None => Seq::empty(),
            Some((x, y)) => trace(self.target.weights_view(), x as int, y as int),
        }
    }

    pub closed spec fn wf(&self) -> bool {
        &&& self.target.wf()
        &&& match self.iter_pos {
            None => true,
            Some((x, y)) => x < self.target.weights_view().width && y
                < self.target.weights_view().height,
        }
    }

    /// The next column of the seam, or `None` once the first row has been passed.
    pub fn next(&mut self) -> (r: Option<usize>)
        requires
            old(self).wf(),
        ensures
            final(self).wf(),
            final(self).source() == old(self).source(),
            old(self).remaining().len() == 0 ==> r is None && final(self).remaining().len() == 0,
            old(self).remaining().len() > 0 ==> r is Some && r->0 as int == old(
                self,
            ).remaining()[0] && final(self).remaining() == old(self).remaining().drop_first(),
    {
        match self.iter_pos {
            None => None,
            Some((x, y)) => {
                let ghost c = self.target.weights_view();
                if y == 0 {
                    self.iter_pos = None;
                    assert(trace(c, x as int, 0).drop_first() =~= Seq::<int>::empty());
                } else {
                    let weights = &self.target.target;
                    let mut b = x;
                    if x > 0 && *weights.get(x - 1, y - 1) <= *weights.get(x, y - 1) {
                        b = x - 1;
                    }
                    if x < weights.width() - 1 && *weights.get(x + 1, y - 1) < *weights.get(
                        b,
                        y - 1,
                    ) {
                        b = x + 1;
                    }
                    assert(b == pick(c, x as int, y as int));
                    self.iter_pos = Some((b, y - 1));
                    assert(trace(c, x as int, y as int).drop_first() =~= trace(
                        c,
                        b as int,
                        y - 1,
                    ));
                }
                Some(x)
            },
        }
    }
}

/// The step `pick` takes from `(x, y)` stays in the grid, moves at most one column, and reaches
/// the cheapest of the admissible cells of the row above.
proof fn lemma_pick(e: GridView<u32>, x: int, y: int)
    requires
        e.height <= MAX_ENERGY,
        0 < y < e.height,
        0 <= x < e.width,
    ensures
        0 <= pick(cum_grid(e), x, y) < e.width,
        -1 <= pick(cum_grid(e), x, y) - x <= 1,
        cum(e, x, y) == energy(e, x, y) + cum(e, pick(cum_grid(e), x, y), y - 1),
        forall|q: int|
            0 <= q < e.width && -1 <= q - x <= 1 ==> cum(e, x, y) <= energy(e, x, y) + #[trigger] cum(
                e,
                q,
                y - 1,
            ),
{
    lemma_cum_grid(e);
    let c = cum_grid(e);
    assert(c.at(x, y - 1) as int == cum(e, x, y - 1));
    if x > 0 {
        assert(c.at(x - 1, y - 1) as int == cum(e, x - 1, y - 1));
    }
    if x + 1 < e.width {
        assert(c.at(x + 1, y - 1) as int == cum(e, x + 1, y - 1));
    }
}

/// Walking up from `(x, y)` visits one admissible column per row, and the energies met add up to
/// the cumulative cost of `(x, y)`.
proof fn lemma_trace(e: GridView<u32>, x: int, y: int)
    requires
        e.height <= MAX_ENERGY,
        0 <= y < e.height,
        0 <= x < e.width,
    ensures
        trace(cum_grid(e), x, y).len() == y + 1,
        trace(cum_grid(e), x, y)[0] == x,
        forall|k: int|
            0 <= k <= y ==> 0 <= #[trigger] trace(cum_grid(e), x, y)[k] < e.width,
        forall|k: int|
            0 <= k < y ==> -1 <= #[trigger] trace(cum_grid(e), x, y)[k + 1] - trace(
                cum_grid(e),
                x,
                y,
            )[k] <= 1,
        cost_from(e, trace(cum_grid(e), x, y), y) == cum(e, x, y),
    decreases y,
{
    let c = cum_grid(e);
    let t = trace(c, x, y);
    if y == 0 {
        assert(t.drop_first() =~= Seq::<int>::empty());
        assert(cost_from(e, t.drop_first(), y - 1) == 0);
    } else {
        let p = pick(c, x, y);
        lemma_pick(e, x, y);
        lemma_trace(e, p, y - 1);
        let rest = trace(c, p, y - 1);
        assert(t.drop_first() =~= rest);
        assert(cost_from(e, t, y) == energy(e, x, y) + cost_from(e, rest, y - 1));
        assert forall|k: int| 0 <= k <= y implies 0 <= #[trigger] t[k] < e.width by {
            if k > 0 {
                assert(t[k] == rest[k - 1]);
            }
        }
        assert forall|k: int| 0 <= k < y implies -1 <= #[trigger] t[k + 1] - t[k] <= 1 by {
            if k > 0 {
                assert(t[k + 1] == rest[k] && t[k] == rest[k - 1]);
                assert(-1 <= rest[(k - 1) + 1] - rest[k - 1] <= 1);
            }
        }
    }
}

/// Every admissible walk from row `y` up to the first row costs at least the cumulative cost of
/// its starting cell.
proof fn lemma_walk_lower_bound(e: GridView<u32>, s: Seq<int>, y: int)
    requires
        e.height <= MAX_ENERGY,
        0 <= y < e.height,
        s.len() == y + 1,
        forall|k: int| 0 <= k <= y ==> 0 <= #[trigger] s[k] < e.width,
        forall|k: int| 0 <= k < y ==> -1 <= #[trigger] s[k + 1] - s[k] <= 1,
    ensures
        cost_from(e, s, y) >= cum(e, s[0], y),
    decreases y,
{
    let rest = s.drop_first();
    if y == 0 {
        assert(rest =~= Seq::<int>::empty());
        assert(cost_from(e, rest, y - 1) == 0);
    } else {
        assert(s[0] >= 0 && s[0] < e.width);
        assert(-1 <= s[0int + 1] - s[0int] <= 1);
        assert forall|k: int| 0 <= k <= y - 1 implies 0 <= #[trigger] rest[k] < e.width by {
            assert(rest[k] == s[k + 1]);
        }
        assert forall|k: int| 0 <= k < y - 1 implies -1 <= #[trigger] rest[k + 1] - rest[k] <= 1 by {
            assert(rest[k + 1] == s[k + 2] && rest[k] == s[k + 1]);
            assert(-1 <= s[(k + 1) + 1] - s[k + 1] <= 1);
        }
        lemma_walk_lower_bound(e, rest, y - 1);
        lemma_pick(e, s[0], y);
        assert(rest[0] == s[1]);
        assert(cum(e, s[0], y) <= energy(e, s[0], y) + cum(e, s[1], y - 1));
        assert(cost_from(e, s, y) == energy(e, s[0], y) + cost_from(e, rest, y - 1));
    }
}

/// `first_min` picks the first least cell of the last row among columns `0..n`.
proof fn lemma_first_min(c: GridView<u64>, n: int)
    requires
        1 <= n,
    ensures
        0 <= first_min(c, n) < n,
        forall|x: int| 0 <= x < n ==> c.at(first_min(c, n), c.height - 1) <= #[trigger] c.at(x, c.height - 1),
        forall|x: int| 0 <= x < first_min(c, n) ==> c.at(first_min(c, n), c.height - 1) < #[trigger] c.at(x, c.height - 1),
    decreases n,
{
    if n > 1 {
        lemma_first_min(c, n - 1);
    }
}

/// The seam of a search result has one column per row, each inside the grid, and the columns of
/// neighbouring rows are at most one apart.
pub proof fn lemma_seam_is_valid(e: GridView<u32>, r: LowestDerivative)
    requires
        e.wf(),
        e.width > 0,
        e.height > 0,
        e.height <= MAX_ENERGY,
        r.found_in(e),
    ensures
        is_seam(r.seam_view(), e.width, e.height),
{
    lemma_cum_grid(e);
    lemma_first_min(cum_grid(e), e.width as int);
    lemma_trace(e, r.best_x_view(), e.height - 1);
}

/// The weight of a search result is the total energy of its seam, and no seam of the grid has a
/// smaller total energy.
pub proof fn lemma_weight_is_minimum(e: GridView<u32>, r: LowestDerivative, s: Seq<int>)
    requires
        e.wf(),
        e.width > 0,
        e.height > 0,
        e.height <= MAX_ENERGY,
        r.found_in(e),
        is_seam(s, e.width, e.height),
    ensures
        seam_cost(e, r.seam_view()) == r.weight_view(),
        seam_cost(e, s) >= r.weight_view(),
{
    let c = cum_grid(e);
    let h = e.height - 1;
    lemma_cum_grid(e);
    lemma_first_min(c, e.width as int);
    lemma_trace(e, r.best_x_view(), h);
    lemma_walk_lower_bound(e, s, h);
    assert(c.at(s[0], h) as int == cum(e, s[0], h));
    assert(c.at(r.best_x_view(), h) as int == cum(e, r.best_x_view(), h));
}

/// Two searches on the same energy grid agree on the cumulative costs, the seam and its weight.
pub proof fn lemma_find_deterministic(e: GridView<u32>, r1: LowestDerivative, r2: LowestDerivative)
    requires
        r1.found_in(e),
        r2.found_in(e),
    ensures
        r1.weights_view() == r2.weights_view(),
        r1.seam_view() == r2.seam_view(),
        r1.weight_view() == r2.weight_view(),
{
}

} // verus!
