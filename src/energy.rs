//! Edge energy: the magnitude of the horizontal colour difference around each pixel.
use crate::kernel::{grid_from, lemma_grid_from, GridView, VecKernel};
use crate::seam::WeightImage;
use vstd::prelude::*;

verus! {

/// An image of RGBA pixels, one byte per channel.
pub type RgbaGrid = VecKernel<[u8; 4]>;

/// The energy of a pixel in the first or last column, where the horizontal difference is
/// undefined: the largest energy there is, so that a seam passes there only when it must.
pub const BORDER_ENERGY: u32 = 4294967295;

/// Energies are fixed-point: a difference of `d` between neighbours, with channels normalised
/// to `[0, 1]`, has energy `⌊255 · 256 · d⌋`, the truncated root of `ENERGY_SCALE` times the
/// sum of the squared channel differences in bytes.
pub const ENERGY_SCALE: u64 = 65536;

pub open spec fn channel_diff_sq(a: u8, b: u8) -> int {
    (b as int - a as int) * (b as int - a as int)
}

/// The squared Euclidean distance between two pixels, over all four channels.
pub open spec fn diff_sq(l: [u8; 4], r: [u8; 4]) -> int {
    channel_diff_sq(l@[0], r@[0]) + channel_diff_sq(l@[1], r@[1]) + channel_diff_sq(l@[2], r@[2])
        + channel_diff_sq(l@[3], r@[3])
}

/// `r` is the truncated square root of `n`.
pub open spec fn is_root(r: int, n: int) -> bool {
    0 <= r && r * r <= n < (r + 1) * (r + 1)
}

/// The truncated square root of `n`.
pub open spec fn isqrt(n: int) -> int
    decreases n,
{
    if n <= 0 {
        0
    } else {
        let r = isqrt(n - 1);
        if (r + 1) * (r + 1) <= n {
            r + 1
        } else {
            r
        }
    }
}

/// The energy of pixel `(x, y)` of `img`.
pub open spec fn energy_at(img: GridView<[u8; 4]>, x: int, y: int) -> u32 {
    if 0 < x && x + 1 < img.width {
        isqrt(diff_sq(img.at(x - 1, y), img.at(x + 1, y)) * ENERGY_SCALE) as u32
    } else {
        BORDER_ENERGY
    }
}

/// The energy grid of `img`.
pub open spec fn sobel_spec(img: GridView<[u8; 4]>) -> GridView<u32> {
    grid_from(img.width, img.height, |x: int, y: int| energy_at(img, x, y))
}

/// `isqrt` is the truncated square root.
pub proof fn lemma_isqrt(n: int)
    requires
        0 <= n,
    ensures
        is_root(isqrt(n), n),
    decreases n,
{
    if n > 0 {
        lemma_isqrt(n - 1);
        let r = isqrt(n - 1);
        assert((r + 1) * (r + 1) < (r + 2) * (r + 2)) by (nonlinear_arith)
            requires
                0 <= r,
        ;
        assert(r * r <= (r + 1) * (r + 1)) by (nonlinear_arith)
            requires
                0 <= r,
        ;
    }
}

/// Two pixels are at most `4 · 255²` apart, squared.
pub proof fn lemma_diff_sq_bounds(l: [u8; 4], r: [u8; 4])
    ensures
        0 <= diff_sq(l, r) <= 260100,
{
    assert forall|a: u8, b: u8| 0 <= #[trigger] channel_diff_sq(a, b) <= 65025 by {
        let d = b as int - a as int;
        assert(0 <= d * d <= 65025) by (nonlinear_arith)
            requires
                -255 <= d <= 255,
        ;
    }
}

/// A number has one truncated square root.
pub proof fn lemma_root_unique(r1: int, r2: int, n: int)
    requires
        is_root(r1, n),
        is_root(r2, n),
    ensures
        r1 == r2,
{
    if r1 < r2 {
        assert((r1 + 1) * (r1 + 1) <= r2 * r2) by (nonlinear_arith)
            requires
                0 <= r1,
                r1 + 1 <= r2,
        ;
    } else if r2 < r1 {
        assert((r2 + 1) * (r2 + 1) <= r1 * r1) by (nonlinear_arith)
            requires
                0 <= r2,
                r2 + 1 <= r1,
        ;
    }
}

/// Relies on `num_integer::Roots::sqrt` for `u64`: the truncated principal square root, the
/// `r` with `r² ≤ n < (r+1)²`.
#[verifier::external_body]
fn integer_sqrt(n: u64) -> (r: u64)
    ensures
        r * r <= n,
        n < (r + 1) * (r + 1),
{
    num_integer::Roots::sqrt(&n)
}

fn channel_diff_sq_exec(a: u8, b: u8) -> (r: u64)
    ensures
        r == channel_diff_sq(a, b),
        r <= 65025,
{
    let d: u64 = if a <= b {
        (b - a) as u64
    } else {
        (a - b) as u64
    };
    assert(d * d <= 255 * 255) by (nonlinear_arith)
        requires
            d <= 255,
    ;
    assert(d * d == channel_diff_sq(a, b)) by (nonlinear_arith)
        requires
            d == (if a <= b {
                b - a
            } else {
                a - b
            }),
    ;
    d * d
}

/// The energy of a pixel between `left` and `right`.
fn edge_energy(left: [u8; 4], right: [u8; 4]) -> (r: u32)
    ensures
        is_root(r as int, diff_sq(left, right) * ENERGY_SCALE),
        r < BORDER_ENERGY,
{
    let d = channel_diff_sq_exec(left[0], right[0]) + channel_diff_sq_exec(left[1], right[1])
        + channel_diff_sq_exec(left[2], right[2]) + channel_diff_sq_exec(left[3], right[3]);
    let n = d * ENERGY_SCALE;
    let root = integer_sqrt(n);
    assert(root <= 130560) by (nonlinear_arith)
        requires
            root * root <= n,
            n <= 260100 * 65536,
    ;
    root as u32
}

/// Runs a horizontal difference filter over `target`: each pixel gets the magnitude of the
/// difference between its left and right neighbours, and the pixels of the first and last
/// columns get `BORDER_ENERGY`.
pub fn sobel(target: &RgbaGrid) -> (r: WeightImage)
    requires
        target.wf(),
    ensures
        r.wf(),
        r@.width == target@.width,
        r@.height == target@.height,
        forall|x: int, y: int|
            0 <= x < target@.width && 0 <= y < target@.height ==> (if 0 < x && x + 1
                < target@.width {
                is_root(
                    #[trigger] r@.at(x, y) as int,
                    diff_sq(target@.at(x - 1, y), target@.at(x + 1, y)) * ENERGY_SCALE,
                )
            } else {
                r@.at(x, y) == BORDER_ENERGY
            }),
        r@ == sobel_spec(target@),
{
    let (w, h) = target.size();
    let mut cells: Vec<u32> = Vec::new();
    let mut y: usize = 0;
    while y < h
        invariant
            target.wf(),
            target@.width == w,
            target@.height == h,
            y <= h,
            cells@.len() == y * w,
            forall|i: int|
                0 <= i < cells@.len() ==> #[trigger] cells@[i] == energy_at(
                    target@,
                    i % (w as int),
                    i / (w as int),
                ),
        decreases h - y,
    {
        let mut x: usize = 0;
        while x < w
            invariant
                target.wf(),
                target@.width == w,
                target@.height == h,
                y < h,
                x <= w,
                cells@.len() == y * w + x,
                forall|i: int|
                    0 <= i < cells@.len() ==> #[trigger] cells@[i] == energy_at(
                        target@,
                        i % (w as int),
                        i / (w as int),
                    ),
            decreases w - x,
        {
            let v = if x > 0 && x + 1 < w {
                edge_energy(*target.get(x - 1, y), *target.get(x + 1, y))
            } else {
                BORDER_ENERGY
            };
            proof {
                let i = y * w + x;
                vstd::arithmetic::div_mod::lemma_fundamental_div_mod_converse(
                    i as int,
                    w as int,
                    y as int,
                    x as int,
                );
                if 0 < x && x + 1 < w {
                    lemma_diff_sq_bounds(target@.at(x - 1, y as int), target@.at(x + 1, y as int));
                    lemma_isqrt(
                        diff_sq(target@.at(x - 1, y as int), target@.at(x + 1, y as int))
                            * ENERGY_SCALE,
                    );
                    lemma_root_unique(
                        v as int,
                        isqrt(
                            diff_sq(target@.at(x - 1, y as int), target@.at(x + 1, y as int))
                                * ENERGY_SCALE,
                        ),
                        diff_sq(target@.at(x - 1, y as int), target@.at(x + 1, y as int))
                            * ENERGY_SCALE,
                    );
                }
            }
            cells.push(v);
            x = x + 1;
        }
        proof {
            assert((y + 1) * w == y * w + w) by (nonlinear_arith);
        }
        y = y + 1;
    }
    proof {
        assert(h * w == w * h) by (nonlinear_arith);
    }
    let r = VecKernel::from_vec(w, h, cells);
    proof {
        lemma_grid_from(target@.width, target@.height, |x: int, y: int| energy_at(target@, x, y));
        assert forall|x: int, y: int| 0 <= x < w && 0 <= y < h implies #[trigger] r@.at(x, y)
            == sobel_spec(target@).at(x, y) by {
            crate::kernel::lemma_index_in_bounds(w as int, h as int, x, y);
            vstd::arithmetic::div_mod::lemma_fundamental_div_mod_converse(
                y * w + x,
                w as int,
                y,
                x,
            );
        }
        crate::kernel::lemma_grid_ext(r@, sobel_spec(target@));
        assert forall|x: int, y: int|
            0 <= x < target@.width && 0 <= y < target@.height implies (if 0 < x && x + 1
                < target@.width {
                is_root(
                    #[trigger] r@.at(x, y) as int,
                    diff_sq(target@.at(x - 1, y), target@.at(x + 1, y)) * ENERGY_SCALE,
                )
            } else {
                r@.at(x, y) == BORDER_ENERGY
            }) by {
            assert(r@.at(x, y) == energy_at(target@, x, y));
            if 0 < x && x + 1 < target@.width {
                let n = diff_sq(target@.at(x - 1, y), target@.at(x + 1, y)) * ENERGY_SCALE;
                lemma_diff_sq_bounds(target@.at(x - 1, y), target@.at(x + 1, y));
                lemma_isqrt(n);
                assert(isqrt(n) <= 130560) by (nonlinear_arith)
                    requires
                        is_root(isqrt(n), n),
                        n <= 260100 * 65536,
                ;
            }
        }
    }
    r
}

} // verus!
