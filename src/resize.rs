//! The resizing loop: energy, seam, carve, until the target width is reached.
use crate::carve::{carve_spec, carve_vertical};
use crate::energy::{sobel, sobel_spec, RgbaGrid};
use crate::kernel::{GridView, VecKernel};
use crate::seam::{is_seam, seam_of, LowestDerivative, MAX_ENERGY};
use vstd::prelude::*;

verus! {

/// Why a requested size cannot be produced.
#[derive(Debug, Clone, Copy, PartialEq, Eq)]
pub enum ResizeError {
    /// The target height differs from the source height.
    HeightMismatch { from: usize, to: i64 },
    /// The target width exceeds the source width.
    WidthTooLarge { from: usize, to: i64 },
    /// The target width is zero or negative.
    WidthNotPositive { from: usize, to: i64 },
}

/// The outcome of checking a requested size against a `from_width`×`from_height` source: the
/// number of seams to remove, or the reason the size is refused.
pub open spec fn target_spec(from_width: usize, from_height: usize, to_width: i64, to_height: i64) -> Result<usize, ResizeError> {
    if to_height != from_height as int {
        Err(ResizeError::HeightMismatch { from: from_height, to: to_height })
    } else if to_width > from_width as int {
        Err(ResizeError::WidthTooLarge { from: from_width, to: to_width })
    } else if to_width <= 0 {
        Err(ResizeError::WidthNotPositive { from: from_width, to: to_width })
    } else {
        Ok((from_width - to_width) as usize)
    }
}

/// `img` with its minimum-energy seam removed.
pub open spec fn carve_step_spec(img: GridView<[u8; 4]>) -> GridView<[u8; 4]> {
    carve_spec(img, seam_of(sobel_spec(img)))
}

/// `img` with `n` seams removed, one after the other.
pub open spec fn carve_times(img: GridView<[u8; 4]>, n: nat) -> GridView<[u8; 4]>
    decreases n,
{
    if n == 0 {
        img
    } else {
        carve_step_spec(carve_times(img, (n - 1) as nat))
    }
}

/// Checks a requested size against the source size. Only the width may shrink: the height must
/// stay, and the width must stay above zero and not grow.
pub fn check_target(from_width: usize, from_height: usize, to_width: i64, to_height: i64) -> (r: Result<usize, ResizeError>)
    ensures
        r == target_spec(from_width, from_height, to_width, to_height),
{
    if to_height as i128 != from_height as i128 {
        Err(ResizeError::HeightMismatch { from: from_height, to: to_height })
    } else if to_width as i128 > from_width as i128 {
        Err(ResizeError::WidthTooLarge { from: from_width, to: to_width })
    } else if to_width <= 0 {
        Err(ResizeError::WidthNotPositive { from: from_width, to: to_width })
    } else {
        Ok(from_width - to_width as usize)
    }
}

/// Removes the minimum-energy seam of `image`; returns the narrower image and the seam, from
/// the last row up to the first.
pub fn carve_step(image: &RgbaGrid) -> (r: (RgbaGrid, Vec<usize>))
    requires
        image.wf(),
        image@.width > 0,
        image@.height > 0,
        image@.height <= MAX_ENERGY,
    ensures
        r.0.wf(),
        r.0@ == carve_step_spec(image@),
        r.0@.width == image@.width - 1,
        r.0@.height == image@.height,
        r.1@.map_values(|v: usize| v as int) == seam_of(sobel_spec(image@)),
        is_seam(seam_of(sobel_spec(image@)), image@.width, image@.height),
{
    let energy = sobel(image);
    let found = LowestDerivative::find(energy);
    let seam = found.seam();
    proof {
        let s = seam@.map_values(|v: usize| v as int);
        assert forall|k: int| 0 <= k < seam@.len() implies #[trigger] seam@[k] < image@.width by {
            assert(s[k] == seam@[k] as int);
        }
    }
    let carved = carve_vertical(image, seam.as_slice());
    (carved, seam)
}

/// Narrows `image` to `to_width` columns by removing one minimum-energy seam at a time; the
/// height must stay `image`'s own.
pub fn resize(image: RgbaGrid, to_width: i64, to_height: i64) -> (r: Result<RgbaGrid, ResizeError>)
    requires
        image.wf(),
        image@.height > 0,
        image@.height <= MAX_ENERGY,
    ensures
        match target_spec(image@.width as usize, image@.height as usize, to_width, to_height) {
            Err(e) => r == Err::<RgbaGrid, ResizeError>(e),
            Ok(n) => r is Ok && r->Ok_0.wf() && r->Ok_0@ == carve_times(image@, n as nat) && r->Ok_0@.width
                == to_width && r->Ok_0@.height == image@.height,
        },
        to_width == image@.width && to_height == image@.height && image@.width > 0 ==> r is Ok
            && r->Ok_0@ == image@,
{
    let (w, h) = image.size();
    let n = match check_target(w, h, to_width, to_height) {
        Ok(n) => n,
        Err(e) => return Err(e),
    };
    let mut current = image;
    let mut i: usize = 0;
    while i < n
        invariant
            i <= n,
            n < w,
            current.wf(),
            current@ == carve_times(image@, i as nat),
            current@.width == w - i,
            current@.height == h,
            h > 0,
            h <= MAX_ENERGY,
        decreases n - i,
    {
        let (next, _) = carve_step(&current);
        current = next;
        i = i + 1;
    }
    Ok(current)
}

/// The index map of a `width`×`height` image: each cell holds its own row-major index, so that
/// after carving it in step with the image, a cell tells where its pixel stood at first.
pub fn index_map(width: usize, height: usize) -> (r: VecKernel<usize>)
    requires
        width * height <= usize::MAX,
    ensures
        r.wf(),
        r@.width == width,
        r@.height == height,
        forall|x: int, y: int|
            0 <= x < width && 0 <= y < height ==> #[trigger] r@.at(x, y) == y * width + x,
{
    let n = width * height;
    let mut cells: Vec<usize> = Vec::new();
    let mut i: usize = 0;
    while i < n
        invariant
            i <= n,
            n == width * height,
            cells@.len() == i,
            forall|j: int| 0 <= j < i ==> #[trigger] cells@[j] == j,
        decreases n - i,
    {
        cells.push(i);
        i = i + 1;
    }
    let r = VecKernel::from_vec(width, height, cells);
    proof {
        assert forall|x: int, y: int| 0 <= x < width && 0 <= y < height implies #[trigger] r@.at(x, y)
            == y * width + x by {
            crate::kernel::lemma_index_in_bounds(width as int, height as int, x, y);
        }
    }
    r
}

/// For each entry of `seam` (from the last row up to the first), the value of `map` at the cell
/// it names: with an index map, where the removed pixel stood before any carving.
pub fn seam_origins(map: &VecKernel<usize>, seam: &[usize]) -> (r: Vec<usize>)
    requires
        map.wf(),
        seam@.len() == map@.height,
        forall|k: int| 0 <= k < seam@.len() ==> #[trigger] seam@[k] < map@.width,
    ensures
        r@.len() == seam@.len(),
        forall|k: int|
            0 <= k < r@.len() ==> #[trigger] r@[k] == map@.at(seam@[k] as int, map@.height - 1 - k),
{
    let h = map.height();
    let mut out: Vec<usize> = Vec::new();
    let mut k: usize = 0;
    while k < h
        invariant
            map.wf(),
            h == map@.height,
            seam@.len() == h,
            forall|j: int| 0 <= j < seam@.len() ==> #[trigger] seam@[j] < map@.width,
            k <= h,
            out@.len() == k,
            forall|j: int|
                0 <= j < k ==> #[trigger] out@[j] == map@.at(seam@[j] as int, h - 1 - j),
        decreases h - k,
    {
        let v = *map.get(seam[k], h - 1 - k);
        out.push(v);
        k = k + 1;
    }
    out
}

} // verus!
