//! Dense row-major 2-D grids and the quarter-grid symmetry folding used by
//! the regular planar-array transforms.
//!
//! An excitation grid is mirror symmetric about its center, so only one
//! quadrant needs to be stored; `full2quarter` extracts that quadrant and
//! `quarter2full` reconstructs the remaining three by reflection.
//! `flattern_quarter_wgt` / `deflattern_quarter_wgt` serialize a quarter
//! grid to the optimizer's free-parameter vector, dropping the fixed DC
//! coefficient and reinserting it on the way back.  All of this is shape
//! logic, independent of the scalar type carried in the cells.

use vstd::prelude::*;

verus! {

/// A dense row-major 2-D grid of scalar values.
pub struct Grid<T> {
    data: Vec<T>,
    rows: usize,
    cols: usize,
}

impl<T> Grid<T> {
    /// The flat row-major contents.
    pub closed spec fn flat(self) -> Seq<T> {
        self.data@
    }

    pub closed spec fn nrows(self) -> int {
        self.rows as int
    }

    pub closed spec fn ncols(self) -> int {
        self.cols as int
    }

    /// The value held at row `i`, column `j`.
    pub open spec fn at(self, i: int, j: int) -> T {
        self.flat()[i * self.ncols() + j]
    }

    /// Shape consistency: the flat storage holds exactly one cell per
    /// row/column position.
    pub open spec fn wf(self) -> bool {
        self.flat().len() == self.nrows() * self.ncols()
    }

    pub fn num_rows(&self) -> (r: usize)
        ensures
            r as int == self.nrows(),
    {
        self.rows
    }

    pub fn num_cols(&self) -> (r: usize)
        ensures
            r as int == self.ncols(),
    {
        self.cols
    }

    /// Wraps an existing row-major buffer as a grid.
    pub fn from_flat(data: Vec<T>, rows: usize, cols: usize) -> (g: Grid<T>)
        requires
            data@.len() == rows * cols,
        ensures
            g.wf(),
            g.nrows() == rows,
            g.ncols() == cols,
            g.flat() == data@,
    {
        Grid { data, rows, cols }
    }

    /// Hands out the flat row-major buffer.
    pub fn as_flat(&self) -> (r: &Vec<T>)
        ensures
            r@ == self.flat(),
    {
        &self.data
    }
}

impl<T: Copy> Grid<T> {
    /// A grid with every cell set to `fill`.
    pub fn new(rows: usize, cols: usize, fill: T) -> (g: Grid<T>)
        requires
            rows * cols <= usize::MAX,
        ensures
            g.wf(),
            g.nrows() == rows,
            g.ncols() == cols,
            forall|i: int, j: int|
                0 <= i < rows && 0 <= j < cols ==> g.at(i, j) == fill,
    {
        let n: usize = rows * cols;
        let mut data: Vec<T> = Vec::new();
        while data.len() < n
            invariant
                data@.len() <= n,
                forall|k: int| 0 <= k < data@.len() ==> data@[k] == fill,
            decreases n - data@.len(),
        {
            data.push(fill);
        }
        let g = Grid { data, rows, cols };
        proof {
            assert forall|i: int, j: int|
                0 <= i < rows && 0 <= j < cols implies #[trigger] g.at(i, j) == fill by {
                lemma_cell_index_bound(i, j, rows as int, cols as int);
            }
        }
        g
    }

    pub fn get(&self, i: usize, j: usize) -> (r: T)
        requires
            self.wf(),
            i < self.nrows(),
            j < self.ncols(),
        ensures
            r == self.at(i as int, j as int),
    {
        let _n: usize = self.data.len();  // pins the buffer length within usize
        proof {
            lemma_cell_index_bound(i as int, j as int, self.nrows(), self.ncols());
        }
        self.data[i * self.cols + j]
    }

    pub fn set(&mut self, i: usize, j: usize, v: T)
        requires
            old(self).wf(),
            i < old(self).nrows(),
            j < old(self).ncols(),
        ensures
            final(self).wf(),
            final(self).nrows() == old(self).nrows(),
            final(self).ncols() == old(self).ncols(),
            final(self).at(i as int, j as int) == v,
            forall|i2: int, j2: int|
                0 <= i2 < old(self).nrows() && 0 <= j2 < old(self).ncols()
                    && !(i2 == i && j2 == j)
                    ==> final(self).at(i2, j2) == old(self).at(i2, j2),
    {
        let _n: usize = self.data.len();  // pins the buffer length within usize
        proof {
            lemma_cell_index_bound(i as int, j as int, self.nrows(), self.ncols());
        }
        let idx: usize = i * self.cols + j;
        self.data.set(idx, v);
        proof {
            assert forall|i2: int, j2: int|
                0 <= i2 < old(self).nrows() && 0 <= j2 < old(self).ncols()
                    && !(i2 == i && j2 == j)
                    implies final(self).at(i2, j2) == old(self).at(i2, j2) by {
                lemma_cell_index_bound(i2, j2, old(self).nrows(), old(self).ncols());
                lemma_cell_index_injective(
                    i2, j2, i as int, j as int, old(self).ncols());
            }
        }
    }
}

/// Distance of row/column `i` from the mirror center `c`.
pub open spec fn mirror_dist(i: int, c: int) -> int {
    if i >= c {
        i - c
    } else {
        c - i
    }
}

/// `q` is exactly the lower-right quadrant `[h/2.., w/2..]` of `full`.
pub open spec fn is_quarter_of<T>(q: Grid<T>, full: Grid<T>) -> bool {
    &&& q.nrows() == full.nrows() - full.nrows() / 2
    &&& q.ncols() == full.ncols() - full.ncols() / 2
    &&& forall|r: int, c: int|
        0 <= r < q.nrows() && 0 <= c < q.ncols()
            ==> #[trigger] q.at(r, c) == full.at(full.nrows() / 2 + r, full.ncols() / 2 + c)
}

/// `full` is the mirror reconstruction of the quadrant `q`: the quadrant's
/// top-left cell becomes the center, the shared center row and column are
/// not duplicated, and every cell is read off the quadrant at its distance
/// from the center.
pub open spec fn is_mirror_expansion_of<T>(full: Grid<T>, q: Grid<T>) -> bool {
    &&& full.nrows() == 2 * q.nrows() - 1
    &&& full.ncols() == 2 * q.ncols() - 1
    &&& forall|i: int, j: int|
        0 <= i < full.nrows() && 0 <= j < full.ncols()
            ==> #[trigger] full.at(i, j)
                == q.at(mirror_dist(i, q.nrows() - 1), mirror_dist(j, q.ncols() - 1))
}

/// The grid is symmetric under reflection about its center row and about
/// its center column.
pub open spec fn mirror_symmetric<T>(x: Grid<T>) -> bool {
    forall|i: int, j: int|
        0 <= i < x.nrows() && 0 <= j < x.ncols()
            ==> #[trigger] x.at(i, j) == x.at(x.nrows() - 1 - i, j)
                && x.at(i, j) == x.at(i, x.ncols() - 1 - j)
}

/// Every cell of `r` is the cell of `g` half a period away along each
/// axis: the four quadrants are swapped and the corner cell moves to the
/// center.
pub open spec fn is_quadrant_swap_of<T>(r: Grid<T>, g: Grid<T>) -> bool {
    &&& r.nrows() == g.nrows()
    &&& r.ncols() == g.ncols()
    &&& forall|i: int, j: int|
        0 <= i < g.nrows() && 0 <= j < g.ncols()
            ==> #[trigger] r.at(i, j)
                == g.at((i + g.nrows() / 2) % g.nrows(), (j + g.ncols() / 2) % g.ncols())
}

/// Swaps the four quadrants of an even-sized grid, moving the corner cell
/// to the center; its own inverse.  Used to re-center a spectrum before
/// and after the discrete Fourier transform.
pub fn fftshift2<T: Copy>(g: &Grid<T>) -> (r: Grid<T>)
    requires
        g.wf(),
        g.nrows() % 2 == 0,
        g.ncols() % 2 == 0,
    ensures
        r.wf(),
        is_quadrant_swap_of(r, *g),
{
    let rows: usize = g.num_rows();
    let cols: usize = g.num_cols();
    if rows == 0 || cols == 0 {
        proof {
            assert(rows * cols == 0) by (nonlinear_arith)
                requires
                    rows == 0 || cols == 0,
            ;
        }
        let empty: Vec<T> = Vec::new();
        return Grid::from_flat(empty, rows, cols);
    }
    let _total: usize = g.as_flat().len();  // pins the buffer length within usize
    let fill: T = g.get(0, 0);
    let mut r = Grid::new(rows, cols, fill);
    let hr: usize = rows / 2;
    let hc: usize = cols / 2;
    let mut i: usize = 0;
    while i < rows
        invariant
            g.wf(),
            r.wf(),
            rows == g.nrows(),
            cols == g.ncols(),
            hr == rows / 2,
            hc == cols / 2,
            rows % 2 == 0,
            cols % 2 == 0,
            rows >= 1,
            cols >= 1,
            i <= rows,
            r.nrows() == rows,
            r.ncols() == cols,
            forall|i2: int, j2: int|
                0 <= i2 < i && 0 <= j2 < cols
                    ==> #[trigger] r.at(i2, j2)
                        == g.at((i2 + hr) % (rows as int), (j2 + hc) % (cols as int)),
        decreases rows - i,
    {
        let si: usize = if i >= hr {
            i - hr
        } else {
            i + hr
        };
        proof {
            lemma_half_shift(i as int, rows as int);
        }
        let mut j: usize = 0;
        while j < cols
            invariant
                g.wf(),
                r.wf(),
                rows == g.nrows(),
                cols == g.ncols(),
                hr == rows / 2,
                hc == cols / 2,
                rows % 2 == 0,
                cols % 2 == 0,
                rows >= 1,
                cols >= 1,
                i < rows,
                j <= cols,
                si < rows,
                si == (i + hr) % (rows as int),
                r.nrows() == rows,
                r.ncols() == cols,
                forall|i2: int, j2: int|
                    0 <= i2 < i && 0 <= j2 < cols
                        ==> #[trigger] r.at(i2, j2)
                            == g.at((i2 + hr) % (rows as int), (j2 + hc) % (cols as int)),
                forall|j2: int|
                    0 <= j2 < j
                        ==> #[trigger] r.at(i as int, j2)
                            == g.at((i + hr) % (rows as int), (j2 + hc) % (cols as int)),
            decreases cols - j,
        {
            let sj: usize = if j >= hc {
                j - hc
            } else {
                j + hc
            };
            proof {
                lemma_half_shift(j as int, cols as int);
            }
            let v: T = g.get(si, sj);
            r.set(i, j, v);
            j = j + 1;
        }
        i = i + 1;
    }
    r
}

/// Extracts the `[h/2.., w/2..]` quadrant of a grid.
pub fn full2quarter<T: Copy>(full: &Grid<T>) -> (q: Grid<T>)
    requires
        full.wf(),
    ensures
        q.wf(),
        is_quarter_of(q, *full),
{
    let rows: usize = full.num_rows();
    let cols: usize = full.num_cols();
    let qr: usize = rows - rows / 2;
    let qc: usize = cols - cols / 2;
    if rows == 0 || cols == 0 {
        proof {
            assert(qr * qc == 0) by (nonlinear_arith)
                requires
                    qr == 0 || qc == 0,
            ;
        }
        let empty: Vec<T> = Vec::new();
        return Grid::from_flat(empty, qr, qc);
    }
    let _total: usize = full.as_flat().len();  // pins the buffer length within usize
    proof {
        assert(qr * qc <= rows * cols) by (nonlinear_arith)
            requires
                0 <= qr <= rows,
                0 <= qc <= cols,
        ;
    }
    let fill: T = full.get(0, 0);
    let mut q = Grid::new(qr, qc, fill);
    let mut r: usize = 0;
    while r < qr
        invariant
            full.wf(),
            q.wf(),
            rows == full.nrows(),
            cols == full.ncols(),
            qr == rows - rows / 2,
            qc == cols - cols / 2,
            r <= qr,
            q.nrows() == qr,
            q.ncols() == qc,
            forall|r2: int, c2: int|
                0 <= r2 < r && 0 <= c2 < qc
                    ==> #[trigger] q.at(r2, c2)
                        == full.at(rows / 2 + r2, cols / 2 + c2),
        decreases qr - r,
    {
        let mut c: usize = 0;
        while c < qc
            invariant
                full.wf(),
                q.wf(),
                rows == full.nrows(),
                cols == full.ncols(),
                qr == rows - rows / 2,
                qc == cols - cols / 2,
                r < qr,
                c <= qc,
                q.nrows() == qr,
                q.ncols() == qc,
                forall|r2: int, c2: int|
                    0 <= r2 < r && 0 <= c2 < qc
                        ==> #[trigger] q.at(r2, c2)
                            == full.at(rows / 2 + r2, cols / 2 + c2),
                forall|c2: int|
                    0 <= c2 < c
                        ==> #[trigger] q.at(r as int, c2)
                            == full.at(rows / 2 + r, cols / 2 + c2),
            decreases qc - c,
        {
            let v: T = full.get(rows / 2 + r, cols / 2 + c);
            q.set(r, c, v);
            c = c + 1;
        }
        r = r + 1;
    }
    q
}

/// Rebuilds the full mirror-symmetric grid from its stored quadrant.  The
/// result has odd side lengths: the quadrant's first row and column sit on
/// the center lines and are not duplicated.
pub fn quarter2full<T: Copy>(q: &Grid<T>) -> (full: Grid<T>)
    requires
        q.wf(),
        q.nrows() >= 1,
        q.ncols() >= 1,
        (2 * q.nrows() - 1) * (2 * q.ncols() - 1) <= usize::MAX,
    ensures
        full.wf(),
        is_mirror_expansion_of(full, *q),
{
    let qr: usize = q.num_rows();
    let qc: usize = q.num_cols();
    proof {
        assert(2 * qr - 1 <= (2 * qr - 1) * (2 * qc - 1)) by (nonlinear_arith)
            requires
                qr >= 1,
                qc >= 1,
        ;
        assert(2 * qc - 1 <= (2 * qr - 1) * (2 * qc - 1)) by (nonlinear_arith)
            requires
                qr >= 1,
                qc >= 1,
        ;
    }
    let rows: usize = qr - 1 + qr;
    let cols: usize = qc - 1 + qc;
    let fill: T = q.get(0, 0);
    let mut full = Grid::new(rows, cols, fill);
    let mut i: usize = 0;
    while i < rows
        invariant
            q.wf(),
            full.wf(),
            qr == q.nrows(),
            qc == q.ncols(),
            qr >= 1,
            qc >= 1,
            rows == 2 * qr - 1,
            cols == 2 * qc - 1,
            i <= rows,
            full.nrows() == rows,
            full.ncols() == cols,
            forall|i2: int, j2: int|
                0 <= i2 < i && 0 <= j2 < cols
                    ==> #[trigger] full.at(i2, j2)
                        == q.at(mirror_dist(i2, qr - 1), mirror_dist(j2, qc - 1)),
        decreases rows - i,
    {
        let sr: usize = if i >= qr - 1 {
            i - (qr - 1)
        } else {
            (qr - 1) - i
        };
        let mut j: usize = 0;
        while j < cols
            invariant
                q.wf(),
                full.wf(),
                qr == q.nrows(),
                qc == q.ncols(),
                qr >= 1,
                qc >= 1,
                rows == 2 * qr - 1,
                cols == 2 * qc - 1,
                i < rows,
                j <= cols,
                sr < qr,
                sr == mirror_dist(i as int, qr - 1),
                full.nrows() == rows,
                full.ncols() == cols,
                forall|i2: int, j2: int|
                    0 <= i2 < i && 0 <= j2 < cols
                        ==> #[trigger] full.at(i2, j2)
                            == q.at(mirror_dist(i2, qr - 1), mirror_dist(j2, qc - 1)),
                forall|j2: int|
                    0 <= j2 < j
                        ==> #[trigger] full.at(i as int, j2)
                            == q.at(mirror_dist(i as int, qr - 1), mirror_dist(j2, qc - 1)),
            decreases cols - j,
        {
            let sc: usize = if j >= qc - 1 {
                j - (qc - 1)
            } else {
                (qc - 1) - j
            };
            let v: T = q.get(sr, sc);
            full.set(i, j, v);
            j = j + 1;
        }
        i = i + 1;
    }
    full
}

/// Serializes a quarter grid to the optimizer's free-parameter vector by
/// dropping its first cell, the fixed DC coefficient.
pub fn flattern_quarter_wgt<T: Copy>(g: &Grid<T>) -> (r: Vec<T>)
    requires
        g.wf(),
    ensures
        g.flat().len() == 0 ==> r@.len() == 0,
        g.flat().len() >= 1 ==> r@.len() == g.flat().len() - 1,
        forall|m: int| 0 <= m < r@.len() ==> #[trigger] r@[m] == g.flat()[m + 1],
{
    let data: &Vec<T> = g.as_flat();
    let n: usize = data.len();
    let mut out: Vec<T> = Vec::new();
    let mut k: usize = 1;
    while k < n
        invariant
            data@ == g.flat(),
            n == g.flat().len(),
            1 <= k,
            k <= n || (n == 0 && k == 1),
            out@.len() == k - 1,
            forall|m: int| 0 <= m < out@.len() ==> #[trigger] out@[m] == g.flat()[m + 1],
        decreases n - k,
    {
        let v: T = data[k];
        out.push(v);
        k = k + 1;
    }
    out
}

/// Rebuilds a quarter grid from the free-parameter vector, reinserting the
/// DC coefficient `dc` as the first cell.  `h` and `w` are the full grid's
/// side lengths, so the quarter has `(h+1)/2` rows and `(w+1)/2` columns.
pub fn deflattern_quarter_wgt<T: Copy>(wgt: &Vec<T>, dc: T, h: usize, w: usize) -> (g: Grid<T>)
    requires
        h < usize::MAX,
        w < usize::MAX,
        wgt@.len() + 1 == ((h + 1) / 2) * ((w + 1) / 2),
    ensures
        g.wf(),
        g.nrows() == (h + 1) / 2,
        g.ncols() == (w + 1) / 2,
        g.flat().len() == wgt@.len() + 1,
        g.flat()[0] == dc,
        forall|m: int| 1 <= m < g.flat().len() ==> #[trigger] g.flat()[m] == wgt@[m - 1],
{
    let mut data: Vec<T> = Vec::new();
    data.push(dc);
    let n: usize = wgt.len();
    let mut k: usize = 0;
    while k < n
        invariant
            n == wgt@.len(),
            k <= n,
            data@.len() == k + 1,
            data@[0] == dc,
            forall|m: int| 1 <= m < data@.len() ==> #[trigger] data@[m] == wgt@[m - 1],
        decreases n - k,
    {
        let v: T = wgt[k];
        data.push(v);
        k = k + 1;
    }
    Grid::from_flat(data, (h + 1) / 2, (w + 1) / 2)
}

/// Folding round trip: extracting the stored quadrant of an odd-sized,
/// mirror-symmetric grid and expanding it again reproduces the grid
/// exactly.  On an even-sized grid the expansion has one row and column
/// fewer than the original, so the round trip only holds for odd sides.
pub proof fn lemma_full_quarter_round_trip<T>(x: Grid<T>, q: Grid<T>, f: Grid<T>)
    requires
        x.nrows() % 2 == 1,
        x.ncols() % 2 == 1,
        mirror_symmetric(x),
        is_quarter_of(q, x),
        is_mirror_expansion_of(f, q),
    ensures
        f.nrows() == x.nrows(),
        f.ncols() == x.ncols(),
        forall|i: int, j: int|
            0 <= i < x.nrows() && 0 <= j < x.ncols() ==> #[trigger] f.at(i, j) == x.at(i, j),
{
    let a = q.nrows();
    let b = q.ncols();
    assert(x.nrows() == 2 * a - 1);
    assert(x.ncols() == 2 * b - 1);
    assert forall|i: int, j: int|
        0 <= i < x.nrows() && 0 <= j < x.ncols() implies #[trigger] f.at(i, j) == x.at(i, j) by {
        let di = mirror_dist(i, a - 1);
        let dj = mirror_dist(j, b - 1);
        assert(f.at(i, j) == q.at(di, dj));
        assert(q.at(di, dj) == x.at(a - 1 + di, b - 1 + dj));
        let ii = a - 1 + di;
        let jj = b - 1 + dj;
        if i < a - 1 {
            // reflect about the center row
            assert(x.at(i, j) == x.at(x.nrows() - 1 - i, j));
            assert(ii == 2 * a - 2 - i);
        }
        if j < b - 1 {
            // reflect about the center column
            assert(x.at(ii, j) == x.at(ii, x.ncols() - 1 - j));
            assert(jj == 2 * b - 2 - j);
        }
    }
}

/// The quadrant swap is an involution: swapping twice restores every
/// cell of an even-sized grid.
pub proof fn lemma_quadrant_swap_involution<T>(g: Grid<T>, r1: Grid<T>, r2: Grid<T>)
    requires
        g.nrows() % 2 == 0,
        g.ncols() % 2 == 0,
        is_quadrant_swap_of(r1, g),
        is_quadrant_swap_of(r2, r1),
    ensures
        r2.nrows() == g.nrows(),
        r2.ncols() == g.ncols(),
        forall|i: int, j: int|
            0 <= i < g.nrows() && 0 <= j < g.ncols() ==> #[trigger] r2.at(i, j) == g.at(i, j),
{
    let h = g.nrows();
    let w = g.ncols();
    assert forall|i: int, j: int|
        0 <= i < h && 0 <= j < w implies #[trigger] r2.at(i, j) == g.at(i, j) by {
        lemma_half_shift(i, h);
        lemma_half_shift(j, w);
        let i1 = (i + h / 2) % h;
        let j1 = (j + w / 2) % w;
        assert(r2.at(i, j) == r1.at(i1, j1));
        lemma_half_shift(i1, h);
        lemma_half_shift(j1, w);
        assert((i1 + h / 2) % h == i);
        assert((j1 + w / 2) % w == j);
    }
}

/// Serialization round trip: flattening a nonempty quarter grid and
/// rebuilding it with its own DC coefficient reproduces the grid.
pub proof fn lemma_flatten_round_trip<T>(q: Grid<T>, v: Seq<T>, g: Grid<T>)
    requires
        q.flat().len() >= 1,
        v.len() == q.flat().len() - 1,
        forall|m: int| 0 <= m < v.len() ==> #[trigger] v[m] == q.flat()[m + 1],
        g.nrows() == q.nrows(),
        g.ncols() == q.ncols(),
        g.flat().len() == v.len() + 1,
        g.flat()[0] == q.flat()[0],
        forall|m: int| 1 <= m < g.flat().len() ==> #[trigger] g.flat()[m] == v[m - 1],
    ensures
        g.flat() == q.flat(),
{
    assert(g.flat() =~= q.flat());
}

/// Weight multiplicity of a quarter-grid cell in the folded cosine sum:
/// a cell at index 0 along an axis lies on the shared center line and
/// counts once, any other cell also stands for its mirror image and
/// counts twice.
pub fn quarter_fold_multiplicity(i: usize) -> (r: usize)
    ensures
        i == 0 ==> r == 1,
        i != 0 ==> r == 2,
{
    if i == 0 {
        1
    } else {
        2
    }
}

/// Adding half the (even) period and reducing mod the period swaps the two
/// halves of the index range.
proof fn lemma_half_shift(i: int, n: int)
    requires
        n >= 1,
        n % 2 == 0,
        0 <= i < n,
    ensures
        (i + n / 2) % n == if i >= n / 2 {
            i - n / 2
        } else {
            i + n / 2
        },
{
    if i >= n / 2 {
        assert((i + n / 2) % n == i - n / 2) by (nonlinear_arith)
            requires
                n >= 1,
                n == 2 * (n / 2),
                n / 2 <= i < n,
        ;
    } else {
        assert((i + n / 2) % n == i + n / 2) by (nonlinear_arith)
            requires
                n >= 1,
                n == 2 * (n / 2),
                0 <= i < n / 2,
        ;
    }
}

/// A row-major cell index stays inside the flat buffer.
proof fn lemma_cell_index_bound(i: int, j: int, rows: int, cols: int)
    requires
        0 <= i < rows,
        0 <= j < cols,
    ensures
        0 <= i * cols + j < rows * cols,
        i * cols + j <= rows * cols - 1,
{
    assert(0 <= i * cols + j < rows * cols) by (nonlinear_arith)
        requires
            0 <= i < rows,
            0 <= j < cols,
    ;
}

/// Distinct cell positions map to distinct flat indices.
proof fn lemma_cell_index_injective(i1: int, j1: int, i2: int, j2: int, cols: int)
    requires
        0 <= j1 < cols,
        0 <= j2 < cols,
        !(i1 == i2 && j1 == j2),
    ensures
        i1 * cols + j1 != i2 * cols + j2,
{
    assert(i1 * cols + j1 != i2 * cols + j2) by (nonlinear_arith)
        requires
            0 <= j1 < cols,
            0 <= j2 < cols,
            !(i1 == i2 && j1 == j2),
    ;
}

} // verus!
