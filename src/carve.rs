//! Removal of one cell per row, turning a grid into one a column narrower.
use crate::kernel::{grid_from, lemma_grid_from, lemma_index_in_bounds, GridView, VecKernel};
use vstd::prelude::*;

verus! {

/// The cell of a row-major `w`-wide sequence at `(x, y)`.
pub open spec fn cell_at<T>(cells: Seq<T>, w: int, x: int, y: int) -> T {
    cells[y * w + x]
}

/// The column of `g` that lands in column `x` of row `y` once column `cut` of that row is gone.
pub open spec fn kept_column(x: int, cut: int) -> int {
    if x < cut {
        x
    } else {
        x + 1
    }
}

/// `g` without, in each row `y`, the cell at column `seam[height - 1 - y]`: the seam lists the
/// columns from the last row up to the first.
pub open spec fn carve_spec<T>(g: GridView<T>, seam: Seq<int>) -> GridView<T> {
    grid_from(
        (g.width - 1) as nat,
        g.height,
        |x: int, y: int| g.at(kept_column(x, seam[g.height - 1 - y]), y),
    )
}

/// Removes from each row of `target` the cell that the seam names for it. `x_list` lists one
/// column per row, from the last row up to the first.
pub fn carve_vertical<P: Copy>(target: &VecKernel<P>, x_list: &[usize]) -> (r: VecKernel<P>)
    requires
        target.wf(),
        target@.width > 0,
        x_list@.len() == target@.height,
        forall|k: int| 0 <= k < x_list@.len() ==> #[trigger] x_list@[k] < target@.width,
    ensures
        r.wf(),
        r@.width == target@.width - 1,
        r@.height == target@.height,
        r@ == carve_spec(target@, x_list@.map_values(|v: usize| v as int)),
        forall|y: int|
            0 <= y < target@.height ==> #[trigger] r@.row(y) == target@.row(y).remove(
                x_list@[target@.height - 1 - y] as int,
            ),
{
    let (w, h) = target.size();
    let nw = w - 1;
    let mut pixels: Vec<P> = Vec::new();
    let mut y: usize = 0;
    while y < h
        invariant
            target.wf(),
            target@.width == w,
            target@.height == h,
            w > 0,
            nw == w - 1,
            x_list@.len() == h,
            forall|k: int| 0 <= k < x_list@.len() ==> #[trigger] x_list@[k] < w,
            y <= h,
            pixels@.len() == y * nw,
            forall|xx: int, yy: int|
                0 <= xx < nw && 0 <= yy < y ==> #[trigger] cell_at(pixels@, nw as int, xx, yy)
                    == target@.at(kept_column(xx, x_list@[h - 1 - yy] as int), yy),
        decreases h - y,
    {
        let remove_at = x_list[h - 1 - y];
        let mut x: usize = 0;
        proof {
            lemma_index_in_bounds(nw as int + 1, h as int, 0, y as int);
        }
        while x < w
            invariant
                target.wf(),
                target@.width == w,
                target@.height == h,
                w > 0,
                nw == w - 1,
                y < h,
                remove_at < w,
                x <= w,
                pixels@.len() == y * nw + (if x <= remove_at {
                    x as int
                } else {
                    x - 1
                }),
                forall|xx: int, yy: int|
                    0 <= xx < nw && 0 <= yy < y ==> #[trigger] cell_at(pixels@, nw as int, xx, yy)
                        == target@.at(kept_column(xx, x_list@[h - 1 - yy] as int), yy),
                forall|xx: int|
                    0 <= xx < (if x <= remove_at {
                        x as int
                    } else {
                        x - 1
                    }) ==> #[trigger] cell_at(pixels@, nw as int, xx, y as int) == target@.at(
                        kept_column(xx, remove_at as int),
                        y as int,
                    ),
            decreases w - x,
        {
            if x != remove_at {
                let ghost before = pixels@;
                let v = *target.get(x, y);
                pixels.push(v);
                proof {
                    assert forall|xx: int, yy: int| 0 <= xx < nw && 0 <= yy < y implies #[trigger] cell_at(
                        pixels@,
                        nw as int,
                        xx,
                        yy,
                    ) == target@.at(kept_column(xx, x_list@[h - 1 - yy] as int), yy) by {
                        lemma_index_in_bounds(nw as int, y as int, xx, yy);
                        assert(nw * y == y * nw) by (nonlinear_arith);
                        assert(cell_at(before, nw as int, xx, yy) == target@.at(
                            kept_column(xx, x_list@[h - 1 - yy] as int),
                            yy,
                        ));
                    }
                    let count = if x <= remove_at {
                        x as int
                    } else {
                        x - 1
                    };
                    assert forall|xx: int| 0 <= xx < count + 1 implies #[trigger] cell_at(
                        pixels@,
                        nw as int,
                        xx,
                        y as int,
                    ) == target@.at(kept_column(xx, remove_at as int), y as int) by {
                        if xx < count {
                            assert(cell_at(before, nw as int, xx, y as int) == target@.at(
                                kept_column(xx, remove_at as int),
                                y as int,
                            ));
                        }
                    }
                }
            }
            x = x + 1;
        }
        proof {
            assert((y + 1) * nw == y * nw + nw) by (nonlinear_arith);
        }
        y = y + 1;
    }
    proof {
        assert(h * nw == nw * h) by (nonlinear_arith);
    }
    let r = VecKernel::from_vec(nw, h, pixels);
    proof {
        let seam = x_list@.map_values(|v: usize| v as int);
        let want = carve_spec(target@, seam);
        lemma_grid_from(
            (target@.width - 1) as nat,
            target@.height,
            |x: int, y: int| target@.at(kept_column(x, seam[target@.height - 1 - y]), y),
        );
        assert forall|xx: int, yy: int| 0 <= xx < nw && 0 <= yy < h implies #[trigger] r@.at(xx, yy)
            == want.at(xx, yy) by {
            assert(cell_at(pixels@, nw as int, xx, yy) == target@.at(
                kept_column(xx, x_list@[h - 1 - yy] as int),
                yy,
            ));
        }
        crate::kernel::lemma_grid_ext(r@, want);
        assert forall|yy: int| 0 <= yy < h implies #[trigger] r@.row(yy) == target@.row(yy).remove(
            x_list@[h - 1 - yy] as int,
        ) by {
            let cut = x_list@[h - 1 - yy] as int;
            if nw > 0 {
                lemma_index_in_bounds(nw as int, h as int, 0, yy);
            } else {
                assert(yy * nw == 0) by (nonlinear_arith)
                    requires
                        nw == 0,
                ;
                assert(h * nw == 0) by (nonlinear_arith)
                    requires
                        nw == 0,
                ;
            }
            lemma_index_in_bounds(w as int, h as int, 0, yy);
            assert forall|xx: int| 0 <= xx < nw implies r@.row(yy)[xx] == target@.row(yy).remove(
                cut,
            )[xx] by {
                assert(r@.row(yy)[xx] == r@.at(xx, yy));
                assert(target@.row(yy)[kept_column(xx, cut)] == target@.at(kept_column(xx, cut), yy));
            }
            assert(r@.row(yy) =~= target@.row(yy).remove(cut));
        }
    }
    r
}

} // verus!
