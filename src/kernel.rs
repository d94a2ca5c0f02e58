//! A dense, row-major 2-D buffer addressed by `(x, y)` coordinates.
use vstd::prelude::*;

verus! {

/// The mathematical content of a grid: its dimensions and its cells in row-major order.
pub struct GridView<T> {
    pub width: nat,
    pub height: nat,
    pub cells: Seq<T>,
}

impl<T> GridView<T> {
    /// One cell for each coordinate pair.
    pub open spec fn wf(self) -> bool {
        self.cells.len() == self.width * self.height
    }

    pub open spec fn contains(self, x: int, y: int) -> bool {
        0 <= x < self.width && 0 <= y < self.height
    }

    pub open spec fn index_of(self, x: int, y: int) -> int {
        y * self.width + x
    }

    pub open spec fn at(self, x: int, y: int) -> T {
        self.cells[self.index_of(x, y)]
    }

    /// The cells of row `y`, left to right.
    pub open spec fn row(self, y: int) -> Seq<T> {
        self.cells.subrange(y * self.width, y * self.width + self.width)
    }

    pub open spec fn set(self, x: int, y: int, v: T) -> GridView<T> {
        GridView {
            width: self.width,
            height: self.height,
            cells: self.cells.update(self.index_of(x, y), v),
        }
    }
}

/// Row-major layout: a coordinate inside a `w`×`h` rectangle has an index below `w * h`.
pub proof fn lemma_index_in_bounds(w: int, h: int, x: int, y: int)
    requires
        0 <= x < w,
        0 <= y < h,
    ensures
        0 <= y * w + x < w * h,
        y * w + w <= w * h,
        (y + 1) * w == y * w + w,
{
    assert(y * w <= (h - 1) * w) by (nonlinear_arith)
        requires
            y <= h - 1,
            0 <= w,
    ;
    assert((h - 1) * w == h * w - w) by (nonlinear_arith);
    assert((y + 1) * w == y * w + w) by (nonlinear_arith);
    assert(w * h == h * w) by (nonlinear_arith);
    assert(0 <= y * w) by (nonlinear_arith)
        requires
            0 <= y,
            0 <= w,
    ;
}

/// Row-major layout: distinct coordinates have distinct indices.
pub proof fn lemma_index_injective(w: int, x1: int, y1: int, x2: int, y2: int)
    requires
        0 <= x1 < w,
        0 <= x2 < w,
        0 <= y1,
        0 <= y2,
        y1 * w + x1 == y2 * w + x2,
    ensures
        x1 == x2,
        y1 == y2,
{
    if y1 < y2 {
        assert(y1 * w + w <= y2 * w) by (nonlinear_arith)
            requires
                y1 < y2,
                0 <= w,
        ;
    } else if y2 < y1 {
        assert(y2 * w + w <= y1 * w) by (nonlinear_arith)
            requires
                y2 < y1,
                0 <= w,
        ;
    }
}

/// The `w`×`h` grid whose cell at `(x, y)` is `f(x, y)`.
pub open spec fn grid_from<T>(w: nat, h: nat, f: spec_fn(int, int) -> T) -> GridView<T> {
    GridView {
        width: w,
        height: h,
        cells: Seq::new(w * h, |i: int| f(i % (w as int), i / (w as int))),
    }
}

/// Splits an index of a row-major `w`-wide layout into its column and row.
pub proof fn lemma_split_index(w: int, h: int, i: int)
    requires
        0 < w,
        0 <= h,
        0 <= i < w * h,
    ensures
        0 <= i % w < w,
        0 <= i / w < h,
        (i / w) * w + i % w == i,
{
    vstd::arithmetic::div_mod::lemma_fundamental_div_mod(i, w);
    assert(w * (i / w) == (i / w) * w) by (nonlinear_arith);
    vstd::arithmetic::div_mod::lemma_mod_pos_bound(i, w);
    vstd::arithmetic::div_mod::lemma_div_pos_is_pos(i, w);
    if i / w >= h {
        assert((i / w) * w >= h * w) by (nonlinear_arith)
            requires
                i / w >= h,
                w > 0,
        ;
        assert(h * w == w * h) by (nonlinear_arith);
    }
}

/// A grid built from a generator holds the generator's value in each cell.
pub proof fn lemma_grid_from<T>(w: nat, h: nat, f: spec_fn(int, int) -> T)
    ensures
        grid_from(w, h, f).wf(),
        forall|x: int, y: int|
            0 <= x < w && 0 <= y < h ==> #[trigger] grid_from(w, h, f).at(x, y) == f(x, y),
{
    assert forall|x: int, y: int| 0 <= x < w && 0 <= y < h implies #[trigger] grid_from(
        w,
        h,
        f,
    ).at(x, y) == f(x, y) by {
        lemma_index_in_bounds(w as int, h as int, x, y);
        vstd::arithmetic::div_mod::lemma_fundamental_div_mod_converse(y * w + x, w as int, y, x);
    }
}

/// Two grids of equal dimensions that agree at every position are equal.
pub proof fn lemma_grid_ext<T>(a: GridView<T>, b: GridView<T>)
    requires
        a.wf(),
        b.wf(),
        a.width == b.width,
        a.height == b.height,
        forall|x: int, y: int| 0 <= x < a.width && 0 <= y < a.height ==> #[trigger] a.at(x, y) == b.at(x, y),
    ensures
        a == b,
{
    assert forall|i: int| 0 <= i < a.cells.len() implies a.cells[i] == b.cells[i] by {
        let w = a.width as int;
        if w == 0 {
            assert(a.width * a.height == 0) by (nonlinear_arith)
                requires
                    a.width == 0,
            ;
        }
        lemma_split_index(w, a.height as int, i);
        assert(a.at(i % w, i / w) == b.at(i % w, i / w));
    }
    assert(a.cells =~= b.cells);
}

/// Setting one cell leaves every other position as it was.
pub proof fn lemma_set_at<T>(g: GridView<T>, x: int, y: int, v: T)
    requires
        g.wf(),
        g.contains(x, y),
    ensures
        g.set(x, y, v).wf(),
        forall|xx: int, yy: int|
            #![trigger g.set(x, y, v).at(xx, yy)]
            g.contains(xx, yy) ==> g.set(x, y, v).at(xx, yy) == (if xx == x && yy == y {
                v
            } else {
                g.at(xx, yy)
            }),
{
    lemma_index_in_bounds(g.width as int, g.height as int, x, y);
    assert forall|xx: int, yy: int| #![trigger g.set(x, y, v).at(xx, yy)] g.contains(xx, yy) implies g.set(x, y, v).at(xx, yy) == (if xx == x && yy == y {
        v
    } else {
        g.at(xx, yy)
    }) by {
        lemma_index_in_bounds(g.width as int, g.height as int, xx, yy);
        if !(xx == x && yy == y) {
            if g.index_of(xx, yy) == g.index_of(x, y) {
                lemma_index_injective(g.width as int, xx, yy, x, y);
            }
        }
    }
}

/// A grid whose cells are stored in a plain vector.
#[derive(Debug, Clone)]
pub struct VecKernel<P> {
    width: usize,
    height: usize,
    pixels: Vec<P>,
}

impl<P> View for VecKernel<P> {
    type V = GridView<P>;

    closed spec fn view(&self) -> GridView<P> {
        GridView { width: self.width as nat, height: self.height as nat, cells: self.pixels@ }
    }
}

impl<P: Copy> VecKernel<P> {
    pub open spec fn wf(&self) -> bool {
        self@.wf()
    }

    /// Takes ownership of a row-major vector of `width * height` cells.
    pub fn from_vec(width: usize, height: usize, pixels: Vec<P>) -> (r: Self)
        requires
            pixels@.len() == width * height,
        ensures
            r.wf(),
            r@ == (GridView { width: width as nat, height: height as nat, cells: pixels@ }),
    {
        VecKernel { width, height, pixels }
    }

    /// The row-major cells.
    pub fn as_vec(&self) -> (r: &Vec<P>)
        ensures
            r@ == self@.cells,
    {
        &self.pixels
    }

    /// The row-major cells, handed back.
    pub fn into_vec(self) -> (r: Vec<P>)
        ensures
            r@ == self@.cells,
    {
        self.pixels
    }

    /// `(width, height)`.
    pub fn size(&self) -> (r: (usize, usize))
        ensures
            r.0 == self@.width,
            r.1 == self@.height,
    {
        (self.width, self.height)
    }

    pub fn width(&self) -> (r: usize)
        ensures
            r == self@.width,
    {
        self.width
    }

    pub fn height(&self) -> (r: usize)
        ensures
            r == self@.height,
    {
        self.height
    }

    /// The number of cells.
    pub fn dim(&self) -> (r: usize)
        requires
            self.wf(),
        ensures
            r == self@.width * self@.height,
    {
        self.pixels.len()
    }

    pub fn contains_pos(&self, x: isize, y: isize) -> (r: bool)
        ensures
            r == self@.contains(x as int, y as int),
    {
        0 <= x && 0 <= y && (x as usize) < self.width && (y as usize) < self.height
    }

    /// The row-major index of an in-bounds position.
    pub fn encode_pos(&self, x: usize, y: usize) -> (r: usize)
        requires
            self.wf(),
            self@.contains(x as int, y as int),
        ensures
            r == self@.index_of(x as int, y as int),
            r < self@.cells.len(),
    {
        // The cell count fits a `usize`, and with it every in-bounds index.
        let _cells = self.pixels.len();
        proof {
            lemma_index_in_bounds(self.width as int, self.height as int, x as int, y as int);
        }
        y * self.width + x
    }

    /// The row-major index of a position, or `None` where it lies outside the grid.
    pub fn try_encode_pos(&self, x: isize, y: isize) -> (r: Option<usize>)
        requires
            self.wf(),
        ensures
            r is Some <==> self@.contains(x as int, y as int),
            r is Some ==> r->0 == self@.index_of(x as int, y as int),
    {
        if self.contains_pos(x, y) {
            Some(self.encode_pos(x as usize, y as usize))
        } else {
            None
        }
    }

    /// The position of a row-major index.
    pub fn decode_pos(&self, i: usize) -> (r: (usize, usize))
        requires
            self.wf(),
            i < self@.cells.len(),
        ensures
            self@.contains(r.0 as int, r.1 as int),
            self@.index_of(r.0 as int, r.1 as int) == i,
    {
        let w = self.width;
        assert(w > 0) by {
            if w == 0 {
                assert(self@.width * self@.height == 0) by (nonlinear_arith)
                    requires
                        self@.width == 0,
                ;
            }
        }
        let x = i % w;
        let y = i / w;
        proof {
            vstd::arithmetic::div_mod::lemma_fundamental_div_mod(i as int, w as int);
            if y >= self.height {
                assert(y * w >= self.height * w) by (nonlinear_arith)
                    requires
                        y >= self.height,
                        w > 0,
                ;
                assert(self.height * w == self@.width * self@.height) by (nonlinear_arith)
                    requires
                        w == self@.width,
                        self.height == self@.height,
                ;
            }
            assert(w * y == y * w) by (nonlinear_arith);
        }
        (x, y)
    }

    pub fn get(&self, x: usize, y: usize) -> (r: &P)
        requires
            self.wf(),
            self@.contains(x as int, y as int),
        ensures
            *r == self@.at(x as int, y as int),
    {
        let i = self.encode_pos(x, y);
        &self.pixels[i]
    }

    pub fn try_get(&self, x: isize, y: isize) -> (r: Option<&P>)
        requires
            self.wf(),
        ensures
            r is Some <==> self@.contains(x as int, y as int),
            r is Some ==> *r->0 == self@.at(x as int, y as int),
    {
        if self.contains_pos(x, y) {
            Some(self.get(x as usize, y as usize))
        } else {
            None
        }
    }

    /// Replaces the cell at an in-bounds position, returning what it held.
    pub fn put(&mut self, x: usize, y: usize, value: P) -> (r: P)
        requires
            old(self).wf(),
            old(self)@.contains(x as int, y as int),
        ensures
            final(self).wf(),
            r == old(self)@.at(x as int, y as int),
            final(self)@ == old(self)@.set(x as int, y as int, value),
    {
        let i = self.encode_pos(x, y);
        let prev = self.pixels[i];
        self.pixels.set(i, value);
        prev
    }

    /// A mutable reference to the cell at an in-bounds position.
    pub fn get_mut(&mut self, x: usize, y: usize) -> (r: &mut P)
        requires
            old(self).wf(),
            old(self)@.contains(x as int, y as int),
        ensures
            *r == old(self)@.at(x as int, y as int),
            final(self)@ == old(self)@.set(x as int, y as int, *final(r)),
    {
        let i = self.encode_pos(x, y);
        &mut self.pixels[i]
    }

    /// A mutable reference to the cell at a position, or `None` where it lies outside the grid.
    pub fn try_get_mut(&mut self, x: isize, y: isize) -> (r: Option<&mut P>)
        requires
            old(self).wf(),
        ensures
            r is Some <==> old(self)@.contains(x as int, y as int),
            r is Some ==> *r->0 == old(self)@.at(x as int, y as int) && final(self)@ == old(
                self,
            )@.set(x as int, y as int, *final(r->0)),
            r is None ==> final(self)@ == old(self)@,
    {
        if self.contains_pos(x, y) {
            Some(self.get_mut(x as usize, y as usize))
        } else {
            None
        }
    }

    /// A `width`×`height` grid whose cells all hold `P`'s default value.
    pub fn new(width: usize, height: usize) -> (r: Self) where P: Default
        requires
            width * height <= usize::MAX,
        ensures
            r.wf(),
            r@.width == width,
            r@.height == height,
            forall|i: int| 0 <= i < r@.cells.len() ==> #[trigger] r@.cells[i] == r@.cells[0],
    {
        let n = width * height;
        let fill = P::default();
        let mut pixels: Vec<P> = Vec::new();
        let mut i: usize = 0;
        while i < n
            invariant
                i <= n,
                pixels@.len() == i,
                forall|j: int| 0 <= j < i ==> #[trigger] pixels@[j] == fill,
            decreases n - i,
        {
            pixels.push(fill);
            i = i + 1;
        }
        VecKernel { width, height, pixels }
    }

    /// A `width`×`height` grid whose cell at `(x, y)` is `handler(x, y)`, the cells computed in
    /// row-major order.
    pub fn from_fn<F: Fn(usize, usize) -> P>(width: usize, height: usize, handler: F) -> (r: Self)
        requires
            width * height <= usize::MAX,
            forall|x: usize, y: usize| x < width && y < height ==> #[trigger] handler.requires((x, y)),
        ensures
            r.wf(),
            r@.width == width,
            r@.height == height,
            forall|x: int, y: int|
                0 <= x < width && 0 <= y < height ==> handler.ensures(
                    (x as usize, y as usize),
                    #[trigger] r@.at(x, y),
                ),
    {
        let mut pixels: Vec<P> = Vec::new();
        let mut y: usize = 0;
        while y < height
            invariant
                width * height <= usize::MAX,
                forall|x: usize, y: usize| x < width && y < height ==> #[trigger] handler.requires((x, y)),
                y <= height,
                pixels@.len() == y * width,
                forall|xx: int, yy: int|
                    0 <= xx < width && 0 <= yy < y ==> handler.ensures(
                        (xx as usize, yy as usize),
                        #[trigger] pixels@[yy * width + xx],
                    ),
            decreases height - y,
        {
            let mut x: usize = 0;
            while x < width
                invariant
                    width * height <= usize::MAX,
                    forall|x: usize, y: usize| x < width && y < height ==> #[trigger] handler.requires((x, y)),
                    y < height,
                    x <= width,
                    pixels@.len() == y * width + x,
                    forall|xx: int, yy: int|
                        0 <= xx < width && 0 <= yy < y ==> handler.ensures(
                            (xx as usize, yy as usize),
                            #[trigger] pixels@[yy * width + xx],
                        ),
                    forall|xx: int|
                        0 <= xx < x ==> handler.ensures(
                            (xx as usize, y),
                            #[trigger] pixels@[y * width + xx],
                        ),
                decreases width - x,
            {
                let v = handler(x, y);
                let ghost before = pixels@;
                pixels.push(v);
                proof {
                    assert forall|xx: int, yy: int|
                        0 <= xx < width && 0 <= yy < y implies handler.ensures(
                        (xx as usize, yy as usize),
                        #[trigger] pixels@[yy * width + xx],
                    ) by {
                        lemma_index_in_bounds(width as int, y as int, xx, yy);
                        assert(width * y == y * width) by (nonlinear_arith);
                        assert(pixels@[yy * width + xx] == before[yy * width + xx]);
                    }
                    assert forall|xx: int| 0 <= xx < x + 1 implies handler.ensures(
                        (xx as usize, y),
                        #[trigger] pixels@[y * width + xx],
                    ) by {
                        if xx < x {
                            assert(pixels@[y * width + xx] == before[y * width + xx]);
                        }
                    }
                }
                x = x + 1;
            }
            proof {
                lemma_index_in_bounds(width as int + 1, height as int, 0, y as int);
                assert((y + 1) * width == y * width + width) by (nonlinear_arith);
                assert forall|xx: int, yy: int|
                    0 <= xx < width && 0 <= yy < y + 1 implies handler.ensures(
                    (xx as usize, yy as usize),
                    #[trigger] pixels@[yy * width + xx],
                ) by {
                    if yy == y {
                        assert(handler.ensures((xx as usize, y), pixels@[y * width + xx]));
                    }
                }
            }
            y = y + 1;
        }
        proof {
            assert(height * width == width * height) by (nonlinear_arith);
        }
        VecKernel { width, height, pixels }
    }

    /// The grid of the same size whose cell at `(x, y)` is `f(x, y, cell)`.
    pub fn map<Q: Copy, F: Fn(usize, usize, P) -> Q>(&self, f: F) -> (r: VecKernel<Q>)
        requires
            self.wf(),
            forall|x: usize, y: usize, p: P|
                x < self@.width && y < self@.height ==> #[trigger] f.requires((x, y, p)),
        ensures
            r.wf(),
            r@.width == self@.width,
            r@.height == self@.height,
            forall|x: int, y: int|
                0 <= x < self@.width && 0 <= y < self@.height ==> f.ensures(
                    (x as usize, y as usize, self@.at(x, y)),
                    #[trigger] r@.at(x, y),
                ),
    {
        let (width, height) = self.size();
        // The cell count fits a `usize`, and with it every in-bounds index.
        let _cells = self.dim();
        let mut cells: Vec<Q> = Vec::new();
        let mut y: usize = 0;
        while y < height
            invariant
                self.wf(),
                self@.width == width,
                self@.height == height,
                forall|x: usize, y: usize, p: P|
                    x < width && y < height ==> #[trigger] f.requires((x, y, p)),
                y <= height,
                cells@.len() == y * width,
                forall|xx: int, yy: int|
                    0 <= xx < width && 0 <= yy < y ==> f.ensures(
                        (xx as usize, yy as usize, self@.at(xx, yy)),
                        #[trigger] cells@[yy * width + xx],
                    ),
            decreases height - y,
        {
            let mut x: usize = 0;
            while x < width
                invariant
                    self.wf(),
                    self@.width == width,
                    self@.height == height,
                    forall|x: usize, y: usize, p: P|
                        x < width && y < height ==> #[trigger] f.requires((x, y, p)),
                    y < height,
                    x <= width,
                    cells@.len() == y * width + x,
                    forall|xx: int, yy: int|
                        0 <= xx < width && 0 <= yy < y ==> f.ensures(
                            (xx as usize, yy as usize, self@.at(xx, yy)),
                            #[trigger] cells@[yy * width + xx],
                        ),
                    forall|xx: int|
                        0 <= xx < x ==> f.ensures(
                            (xx as usize, y, self@.at(xx, y as int)),
                            #[trigger] cells@[y * width + xx],
                        ),
                decreases width - x,
            {
                let v = f(x, y, *self.get(x, y));
                let ghost before = cells@;
                cells.push(v);
                proof {
                    assert forall|xx: int, yy: int|
                        0 <= xx < width && 0 <= yy < y implies f.ensures(
                        (xx as usize, yy as usize, self@.at(xx, yy)),
                        #[trigger] cells@[yy * width + xx],
                    ) by {
                        lemma_index_in_bounds(width as int, y as int, xx, yy);
                        assert(width * y == y * width) by (nonlinear_arith);
                        assert(cells@[yy * width + xx] == before[yy * width + xx]);
                    }
                    assert forall|xx: int| 0 <= xx < x + 1 implies f.ensures(
                        (xx as usize, y, self@.at(xx, y as int)),
                        #[trigger] cells@[y * width + xx],
                    ) by {
                        if xx < x {
                            assert(cells@[y * width + xx] == before[y * width + xx]);
                        }
                    }
                }
                x = x + 1;
            }
            proof {
                assert((y + 1) * width == y * width + width) by (nonlinear_arith);
                assert forall|xx: int, yy: int|
                    0 <= xx < width && 0 <= yy < y + 1 implies f.ensures(
                    (xx as usize, yy as usize, self@.at(xx, yy)),
                    #[trigger] cells@[yy * width + xx],
                ) by {
                    if yy == y {
                        assert(f.ensures((xx as usize, y, self@.at(xx, y as int)), cells@[y * width + xx]));
                    }
                }
            }
            y = y + 1;
        }
        proof {
            assert(height * width == width * height) by (nonlinear_arith);
        }
        VecKernel { width, height, pixels: cells }
    }
}

} // verus!
