//! A rectangular grid stored column by column, and the lines that can be read
//! off it: rows, columns and falling diagonals.

use vstd::prelude::*;

verus! {

/// A cell position: `x` selects the column, `y` the place within the column.
#[derive(Debug, Clone, Copy, PartialEq, Eq, Hash, Structural)]
pub struct Int2 {
    pub x: usize,
    pub y: usize,
}

impl Int2 {
    /// The position in column `x`, at the same place in the column.
    pub fn with_x(self, x: usize) -> (r: Int2)
        ensures
            r == (Int2 { x, y: self.y }),
    {
        Int2 { x, y: self.y }
    }

    /// The position in the same column, at place `y`.
    pub fn with_y(self, y: usize) -> (r: Int2)
        ensures
            r == (Int2 { x: self.x, y }),
    {
        Int2 { x: self.x, y }
    }
}

impl From<(usize, usize)> for Int2 {
    fn from(pair: (usize, usize)) -> (r: Int2) {
        Int2 { x: pair.0, y: pair.1 }
    }
}

impl vstd::std_specs::convert::FromSpecImpl<(usize, usize)> for Int2 {
    open spec fn obeys_from_spec() -> bool {
        true
    }

    open spec fn from_spec(pair: (usize, usize)) -> Int2 {
        Int2 { x: pair.0, y: pair.1 }
    }
}

/// The columns handed to the constructor were not all of one length.
#[derive(Debug, Clone, Copy, PartialEq, Eq, Structural)]
pub struct ShapeError;

/// Every column of `g` has `h` cells and there are `w` of them.
pub open spec fn is_rect<T>(g: Seq<Seq<T>>, w: int, h: int) -> bool {
    &&& g.len() == w
    &&& forall|x: int| 0 <= x < w ==> (#[trigger] g[x]).len() == h
}

/// All columns of `g` have the length of the first one.
pub open spec fn equal_lengths<T>(g: Seq<Seq<T>>) -> bool {
    forall|x: int| 0 <= x < g.len() ==> (#[trigger] g[x]).len() == g[0].len()
}

/// The height that a grid built from the columns `g` gets.
pub open spec fn first_len<T>(g: Seq<Seq<T>>) -> int {
    if g.len() > 0 {
        g[0].len() as int
    } else {
        0
    }
}

/// The grid with rows and columns exchanged: cell `(y, x)` of the result is
/// cell `(x, y)` of `g`.
pub open spec fn transposed<T>(g: Seq<Seq<T>>, w: int, h: int) -> Seq<Seq<T>> {
    Seq::new(h as nat, |y: int| Seq::new(w as nat, |x: int| g[x][y]))
}

/// Row `y` of a grid of width `w`, read from column 0 upwards.
pub open spec fn row_of<T>(g: Seq<Seq<T>>, w: int, y: int) -> Seq<T> {
    Seq::new(w as nat, |x: int| g[x][y])
}

/// The `len` cells that start at `(x, y)` and step by one in both coordinates.
pub open spec fn diag_of<T>(g: Seq<Seq<T>>, x: int, y: int, len: int) -> Seq<T> {
    Seq::new(len as nat, |k: int| g[x + k][y + k])
}

/// How many cells the falling diagonal through `(x, y)` has from there on.
pub open spec fn diag_len(w: int, h: int, x: int, y: int) -> int {
    if w - x <= h - y {
        w - x
    } else {
        h - y
    }
}

/// The least length a reported diagonal has: `min_len`, but never less than
/// one cell.
pub open spec fn diag_floor(min_len: int) -> int {
    if min_len < 1 {
        1
    } else {
        min_len
    }
}

/// How many falling diagonals of a `w` by `h` grid start in column 0 and have
/// at least `min_len` cells.
pub open spec fn left_diag_count(w: int, h: int, min_len: int) -> int {
    let m = diag_floor(min_len);
    if w >= m && h >= m {
        h - m + 1
    } else {
        0
    }
}

/// How many falling diagonals start in row 0, right of column 0, and have at
/// least `min_len` cells.
pub open spec fn top_diag_count(w: int, h: int, min_len: int) -> int {
    let m = diag_floor(min_len);
    if w >= m && h >= m {
        w - m
    } else {
        0
    }
}

/// How many falling diagonals of a `w` by `h` grid have at least `min_len`
/// cells.
pub open spec fn diag_count(w: int, h: int, min_len: int) -> int {
    left_diag_count(w, h, min_len) + top_diag_count(w, h, min_len)
}

/// Where the `i`-th reported diagonal starts: first those of column 0 by
/// growing `y`, then those of row 0 by growing `x`.
pub open spec fn diag_start(w: int, h: int, min_len: int, i: int) -> (int, int) {
    let n = left_diag_count(w, h, min_len);
    if i < n {
        (0, i)
    } else {
        (i - n + 1, 0)
    }
}

/// The columns of a nested vector as nested sequences.
pub open spec fn columns_view<T>(cols: Vec<Vec<T>>) -> Seq<Seq<T>> {
    Seq::new(cols@.len(), |x: int| cols@[x]@)
}

/// A rectangular grid of `width` columns with `height` cells each.
#[derive(Debug, Clone, PartialEq, Eq)]
pub struct Array2D<T> {
    pub width: usize,
    pub height: usize,
    pub cols: Vec<Vec<T>>,
}

impl<T> View for Array2D<T> {
    type V = Seq<Seq<T>>;

    /// The columns, each as the sequence of its cells.
    open spec fn view(&self) -> Seq<Seq<T>> {
        columns_view(self.cols)
    }
}

impl<T> Array2D<T> {
    /// The stored columns agree with `width` and `height`.
    pub open spec fn wf(&self) -> bool {
        is_rect(self@, self.width as int, self.height as int)
    }

    /// The cell at column `x`, place `y`.
    pub open spec fn at(&self, x: int, y: int) -> T {
        self@[x][y]
    }

    /// `pos` names a cell of the grid.
    pub open spec fn in_bounds(&self, pos: Int2) -> bool {
        pos.x < self.width && pos.y < self.height
    }

    /// Builds the grid from its columns. Fails exactly when two columns
    /// differ in length; a grid built from no column at all has height 0.
    pub fn try_from(cols: Vec<Vec<T>>) -> (r: Result<Array2D<T>, ShapeError>)
        ensures
            r is Ok <==> equal_lengths(columns_view(cols)),
            r matches Ok(a) ==> {
                &&& a.wf()
                &&& a.cols == cols
                &&& a.width == cols@.len()
                &&& a.height == first_len(columns_view(cols))
            },
    {
        let width = cols.len();
        let height = if width > 0 {
            cols[0].len()
        } else {
            0
        };
        let mut x: usize = 0;
        while x < width
            invariant
                width == cols@.len(),
                x <= width,
                height == first_len(columns_view(cols)),
                forall|i: int| 0 <= i < x ==> (#[trigger] cols@[i])@.len() == height,
            decreases width - x,
        {
            if cols[x].len() != height {
                assert(columns_view(cols)[x as int].len() != columns_view(cols)[0].len());
                return Err(ShapeError);
            }
            x += 1;
        }
        Ok(Array2D { width, height, cols })
    }

    /// Whether the stored columns agree with `width` and `height`.
    pub fn is_rectangular(&self) -> (r: bool)
        ensures
            r == self.wf(),
    {
        if self.cols.len() != self.width {
            return false;
        }
        let mut x: usize = 0;
        while x < self.width
            invariant
                self.cols@.len() == self.width,
                x <= self.width,
                forall|i: int| 0 <= i < x ==> (#[trigger] self@[i]).len() == self.height,
            decreases self.width - x,
        {
            if self.cols[x].len() != self.height {
                assert(self@[x as int].len() != self.height);
                return false;
            }
            x += 1;
        }
        true
    }

    /// The cell at `pos`.
    pub fn get(&self, pos: Int2) -> (r: &T)
        requires
            self.wf(),
            self.in_bounds(pos),
        ensures
            *r == self.at(pos.x as int, pos.y as int),
    {
        assert(self@[pos.x as int].len() == self.height);
        &self.cols[pos.x][pos.y]
    }

    /// Puts `value` into the cell at `pos` and leaves every other cell as it
    /// was.
    pub fn set(&mut self, pos: Int2, value: T)
        requires
            old(self).wf(),
            old(self).in_bounds(pos),
        ensures
            final(self).wf(),
            final(self).width == old(self).width,
            final(self).height == old(self).height,
            final(self)@ == old(self)@.update(
                pos.x as int,
                old(self)@[pos.x as int].update(pos.y as int, value),
            ),
    {
        assert(self@[pos.x as int].len() == self.height);
        self.cols[pos.x][pos.y] = value;
        assert(self@ =~= old(self)@.update(
            pos.x as int,
            old(self)@[pos.x as int].update(pos.y as int, value),
        ));
    }
}

/// Exchanges the two levels of a rectangular nested vector: element `o` of
/// inner vector `i` becomes element `i` of inner vector `o`.
fn transpose_vecs<T: Copy>(vecs: &Vec<Vec<T>>) -> (outer: Vec<Vec<T>>)
    requires
        vecs@.len() > 0,
        equal_lengths(columns_view(*vecs)),
    ensures
        columns_view(outer) == transposed(
            columns_view(*vecs),
            vecs@.len() as int,
            vecs@[0]@.len() as int,
        ),
{
    let inner_len = vecs.len();
    let outer_len = vecs[0].len();
    let ghost g = columns_view(*vecs);
    let mut outer: Vec<Vec<T>> = Vec::new();
    let mut o: usize = 0;
    while o < outer_len
        invariant
            g == columns_view(*vecs),
            inner_len == vecs@.len(),
            outer_len == vecs@[0]@.len(),
            equal_lengths(g),
            o <= outer_len,
            outer@.len() == o,
            forall|y: int|
                0 <= y < o ==> (#[trigger] outer@[y])@ == Seq::new(
                    inner_len as nat,
                    |x: int| g[x][y],
                ),
        decreases outer_len - o,
    {
        let mut inner: Vec<T> = Vec::new();
        let mut i: usize = 0;
        while i < inner_len
            invariant
                g == columns_view(*vecs),
                inner_len == vecs@.len(),
                outer_len == vecs@[0]@.len(),
                equal_lengths(g),
                o < outer_len,
                i <= inner_len,
                inner@.len() == i,
                forall|x: int| 0 <= x < i ==> #[trigger] inner@[x] == g[x][o as int],
            decreases inner_len - i,
        {
            assert(g[i as int].len() == g[0].len());
            inner.push(vecs[i][o]);
            i += 1;
        }
        outer.push(inner);
        o += 1;
    }
    outer
}

impl<T: Copy> Array2D<T> {
    /// The grid with rows and columns exchanged.
    pub fn transpose(&self) -> (r: Array2D<T>)
        requires
            self.wf(),
        ensures
            r.wf(),
            r.width == self.height,
            r.height == self.width,
            r@ == transposed(self@, self.width as int, self.height as int),
    {
        if self.width == 0 {
            // No column tells the height: the result has `height` empty columns.
            let mut cols: Vec<Vec<T>> = Vec::new();
            let mut y: usize = 0;
            while y < self.height
                invariant
                    y <= self.height,
                    cols@.len() == y,
                    forall|i: int| 0 <= i < y ==> (#[trigger] cols@[i])@.len() == 0,
                decreases self.height - y,
            {
                cols.push(Vec::new());
                y += 1;
            }
            let r = Array2D { width: self.height, height: 0, cols };
            assert forall|y: int| 0 <= y < self.height implies #[trigger] r@[y] =~= transposed(
                self@,
                self.width as int,
                self.height as int,
            )[y] by {}
            r
        } else {
            assert(self@[0].len() == self.height);
            let cols = transpose_vecs(&self.cols);
            Array2D { width: self.height, height: self.width, cols }
        }
    }

    /// Every row with the position of its first cell, by growing `y`.
    pub fn rows(&self) -> (r: Vec<(Vec<T>, Int2)>)
        requires
            self.wf(),
        ensures
            r@.len() == self.height,
            forall|y: int|
                0 <= y < self.height ==> {
                    &&& (#[trigger] r@[y]).0@ == row_of(self@, self.width as int, y)
                    &&& r@[y].1 == (Int2 { x: 0, y: y as usize })
                },
    {
        let mut rows: Vec<(Vec<T>, Int2)> = Vec::new();
        let mut y: usize = 0;
        while y < self.height
            invariant
                self.wf(),
                y <= self.height,
                rows@.len() == y,
                forall|j: int|
                    0 <= j < y ==> {
                        &&& (#[trigger] rows@[j]).0@ == row_of(self@, self.width as int, j)
                        &&& rows@[j].1 == (Int2 { x: 0, y: j as usize })
                    },
            decreases self.height - y,
        {
            let mut row: Vec<T> = Vec::new();
            let mut x: usize = 0;
            while x < self.width
                invariant
                    self.wf(),
                    y < self.height,
                    x <= self.width,
                    row@.len() == x,
                    forall|i: int| 0 <= i < x ==> #[trigger] row@[i] == self@[i][y as int],
                decreases self.width - x,
            {
                assert(self@[x as int].len() == self.height);
                row.push(self.cols[x][y]);
                x += 1;
            }
            rows.push((row, Int2 { x: 0, y }));
            y += 1;
        }
        rows
    }

    /// Every column with the position of its first cell, by growing `x`.
    pub fn cols(&self) -> (r: Vec<(Vec<T>, Int2)>)
        requires
            self.wf(),
        ensures
            r@.len() == self.width,
            forall|x: int|
                0 <= x < self.width ==> {
                    &&& (#[trigger] r@[x]).0@ == self@[x]
                    &&& r@[x].1 == (Int2 { x: x as usize, y: 0 })
                },
    {
        let mut cols: Vec<(Vec<T>, Int2)> = Vec::new();
        let mut x: usize = 0;
        while x < self.width
            invariant
                self.wf(),
                x <= self.width,
                cols@.len() == x,
                forall|i: int|
                    0 <= i < x ==> {
                        &&& (#[trigger] cols@[i]).0@ == self@[i]
                        &&& cols@[i].1 == (Int2 { x: i as usize, y: 0 })
                    },
            decreases self.width - x,
        {
            let mut col: Vec<T> = Vec::new();
            let mut y: usize = 0;
            while y < self.height
                invariant
                    self.wf(),
                    x < self.width,
                    self@[x as int].len() == self.height,
                    y <= self.height,
                    col@.len() == y,
                    forall|j: int| 0 <= j < y ==> #[trigger] col@[j] == self@[x as int][j],
                decreases self.height - y,
            {
                col.push(self.cols[x][y]);
                y += 1;
            }
            cols.push((col, Int2 { x, y: 0 }));
            x += 1;
        }
        cols
    }

    /// The cells from `start` on, stepping by one in both coordinates until
    /// an edge of the grid is reached.
    fn diag_from(&self, start: Int2) -> (diag: Vec<T>)
        requires
            self.wf(),
            start.x <= self.width,
            start.y <= self.height,
        ensures
            diag@ == diag_of(
                self@,
                start.x as int,
                start.y as int,
                diag_len(self.width as int, self.height as int, start.x as int, start.y as int),
            ),
    {
        let across = self.width - start.x;
        let down = self.height - start.y;
        let travel = if across <= down {
            across
        } else {
            down
        };
        let mut diag: Vec<T> = Vec::new();
        let mut k: usize = 0;
        while k < travel
            invariant
                self.wf(),
                travel <= self.width - start.x,
                travel <= self.height - start.y,
                k <= travel,
                diag@.len() == k,
                forall|i: int|
                    0 <= i < k ==> #[trigger] diag@[i] == self@[start.x + i][start.y + i],
            decreases travel - k,
        {
            assert(self@[start.x + k].len() == self.height);
            diag.push(self.cols[start.x + k][start.y + k]);
            k += 1;
        }
        diag
    }

    /// Every falling diagonal that has at least `min_len` cells (and at least
    /// one), with the position of its first cell: those that start in
    /// column 0 by growing `y`, then those that start in row 0 by growing `x`.
    pub fn diags(&self, min_len: usize) -> (r: Vec<(Vec<T>, Int2)>)
        requires
            self.wf(),
        ensures
            r@.len() == diag_count(self.width as int, self.height as int, min_len as int),
            forall|i: int|
                0 <= i < r@.len() ==> {
                    let start = diag_start(
                        self.width as int,
                        self.height as int,
                        min_len as int,
                        i,
                    );
                    &&& (#[trigger] r@[i]).1 == (Int2 {
                        x: start.0 as usize,
                        y: start.1 as usize,
                    })
                    &&& r@[i].0@ == diag_of(
                        self@,
                        start.0,
                        start.1,
                        diag_len(self.width as int, self.height as int, start.0, start.1),
                    )
                },
    {
        let mut diags: Vec<(Vec<T>, Int2)> = Vec::new();
        let floor = if min_len < 1 {
            1
        } else {
            min_len
        };
        if self.width < floor || self.height < floor {
            return diags;
        }
        let ghost w = self.width as int;
        let ghost h = self.height as int;
        let ghost m = min_len as int;
        let left = self.height - floor + 1;
        let mut y: usize = 0;
        while y < left
            invariant
                self.wf(),
                w == self.width,
                h == self.height,
                m == min_len,
                floor == diag_floor(m),
                w >= floor,
                h >= floor,
                left == left_diag_count(w, h, m),
                y <= left,
                diags@.len() == y,
                forall|i: int|
                    0 <= i < y ==> {
                        let start = diag_start(w, h, m, i);
                        &&& (#[trigger] diags@[i]).1 == (Int2 {
                            x: start.0 as usize,
                            y: start.1 as usize,
                        })
                        &&& diags@[i].0@ == diag_of(
                            self@,
                            start.0,
                            start.1,
                            diag_len(w, h, start.0, start.1),
                        )
                    },
            decreases left - y,
        {
            let start = Int2 { x: 0, y };
            let diag = self.diag_from(start);
            diags.push((diag, start));
            y += 1;
        }
        let top = self.width - floor;
        let mut x: usize = 1;
        while x <= top
            invariant
                self.wf(),
                w == self.width,
                h == self.height,
                m == min_len,
                floor == diag_floor(m),
                w >= floor,
                h >= floor,
                left == left_diag_count(w, h, m),
                top == top_diag_count(w, h, m),
                1 <= x <= top + 1,
                diags@.len() == left + x - 1,
                forall|i: int|
                    0 <= i < left + x - 1 ==> {
                        let start = diag_start(w, h, m, i);
                        &&& (#[trigger] diags@[i]).1 == (Int2 {
                            x: start.0 as usize,
                            y: start.1 as usize,
                        })
                        &&& diags@[i].0@ == diag_of(
                            self@,
                            start.0,
                            start.1,
                            diag_len(w, h, start.0, start.1),
                        )
                    },
            decreases top + 1 - x,
        {
            let start = Int2 { x, y: 0 };
            let diag = self.diag_from(start);
            diags.push((diag, start));
            x += 1;
        }
        diags
    }
}


/// Where cell `(x, y)` stands in a listing of a grid of height `h` that goes
/// column after column.
pub open spec fn cell_index(h: int, x: int, y: int) -> int {
    x * h + y
}

/// Cell `(i, j)` of a column-major listing lies before the start of any later
/// column.
pub proof fn lemma_cell_index_bound(h: int, i: int, j: int, x: int)
    requires
        0 <= i < x,
        0 <= j < h,
    ensures
        0 <= cell_index(h, i, j) < cell_index(h, x, 0),
{
    assert(i * h + h <= x * h) by (nonlinear_arith)
        requires
            i + 1 <= x,
            h >= 0,
    ;
    assert(0 <= i * h) by (nonlinear_arith)
        requires
            0 <= i,
            0 <= h,
    ;
}

impl<T: Copy> Array2D<T> {
    /// Every cell with its position, column after column and within a column
    /// by growing `y`.
    pub fn iter(&self) -> (r: Vec<(Int2, T)>)
        requires
            self.wf(),
        ensures
            r@.len() == self.width * self.height,
            forall|x: int, y: int|
                0 <= x < self.width && 0 <= y < self.height ==> r@[#[trigger] cell_index(
                    self.height as int,
                    x,
                    y,
                )] == (Int2 { x: x as usize, y: y as usize }, self@[x][y]),
    {
        let mut cells: Vec<(Int2, T)> = Vec::new();
        let ghost h = self.height as int;
        let mut x: usize = 0;
        while x < self.width
            invariant
                self.wf(),
                h == self.height,
                x <= self.width,
                cells@.len() == cell_index(h, x as int, 0),
                forall|i: int, j: int|
                    0 <= i < x && 0 <= j < h ==> cells@[#[trigger] cell_index(h, i, j)] == (
                        Int2 { x: i as usize, y: j as usize },
                        self@[i][j],
                    ),
            decreases self.width - x,
        {
            let mut y: usize = 0;
            while y < self.height
                invariant
                    self.wf(),
                    h == self.height,
                    x < self.width,
                    self@[x as int].len() == h,
                    y <= h,
                    cells@.len() == cell_index(h, x as int, y as int),
                    forall|i: int, j: int|
                        0 <= i < x && 0 <= j < h ==> cells@[#[trigger] cell_index(h, i, j)] == (
                            Int2 { x: i as usize, y: j as usize },
                            self@[i][j],
                        ),
                    forall|j: int|
                        0 <= j < y ==> cells@[#[trigger] cell_index(h, x as int, j)] == (
                            Int2 { x, y: j as usize },
                            self@[x as int][j],
                        ),
                decreases self.height - y,
            {
                proof {
                    assert forall|i: int, j: int| 0 <= i < x && 0 <= j < h implies 0
                        <= #[trigger] cell_index(h, i, j) < cells@.len() by {
                        lemma_cell_index_bound(h, i, j, x as int);
                    }
                }
                cells.push((Int2 { x, y }, self.cols[x][y]));
                y += 1;
            }
            proof {
                assert(cell_index(h, x + 1, 0) == cell_index(h, x as int, h)) by (nonlinear_arith);
            }
            x += 1;
        }
        cells
    }
}

/// Exchanging rows and columns of a rectangular grid gives a rectangular
/// grid, and doing it twice gives the grid back.
pub proof fn lemma_transpose_twice<T>(g: Seq<Seq<T>>, w: int, h: int)
    requires
        is_rect(g, w, h),
        0 <= h,
    ensures
        is_rect(transposed(g, w, h), h, w),
        transposed(transposed(g, w, h), h, w) == g,
{
    let t = transposed(g, w, h);
    let tt = transposed(t, h, w);
    assert forall|x: int| 0 <= x < w implies #[trigger] tt[x] =~= g[x] by {
        assert forall|y: int| 0 <= y < h implies tt[x][y] == g[x][y] by {}
    }
}

/// The diagonals that `diag_start` lists are those, each once, that start on
/// the left or the top edge and have at least `min_len` cells and at least
/// one: every listed start is such a cell, every such cell is listed, and no
/// two entries of the list start in the same cell.
pub proof fn lemma_diag_starts_exact(w: int, h: int, min_len: int)
    requires
        0 <= w,
        0 <= h,
    ensures
        forall|i: int|
            0 <= i < diag_count(w, h, min_len) ==> {
                let s = #[trigger] diag_start(w, h, min_len, i);
                &&& 0 <= s.0 < w
                &&& 0 <= s.1 < h
                &&& (s.0 == 0 || s.1 == 0)
                &&& diag_len(w, h, s.0, s.1) >= diag_floor(min_len)
            },
        forall|x: int, y: int|
            0 <= x < w && 0 <= y < h && (x == 0 || y == 0) && diag_len(w, h, x, y) >= diag_floor(
                min_len,
            ) ==> exists|i: int|
                0 <= i < diag_count(w, h, min_len) && #[trigger] diag_start(w, h, min_len, i) == (
                    x,
                    y,
                ),
        forall|i: int, j: int|
            0 <= i < j < diag_count(w, h, min_len) ==> #[trigger] diag_start(w, h, min_len, i)
                != #[trigger] diag_start(w, h, min_len, j),
{
    let n = left_diag_count(w, h, min_len);
    assert forall|x: int, y: int|
        0 <= x < w && 0 <= y < h && (x == 0 || y == 0) && diag_len(w, h, x, y) >= diag_floor(
            min_len,
        ) implies exists|i: int|
        0 <= i < diag_count(w, h, min_len) && #[trigger] diag_start(w, h, min_len, i) == (
            x,
            y,
        ) by {
        if x == 0 {
            assert(diag_start(w, h, min_len, y) == (x, y));
        } else {
            assert(diag_start(w, h, min_len, n + x - 1) == (x, y));
        }
    }
}

} // verus!
