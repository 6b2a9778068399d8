//! Tiles of the fractal grid.
//!
//! A `Square` is a grid-aligned square region of the plane, identified by its
//! top-left corner in integer grid coordinates, its edge length, the zoom
//! scale and the iteration bound.  It is a pure value object: two squares are
//! equal exactly when all five fields match, and that identity is also the
//! tile cache's key.  `calculate_square` computes the tile's pixels with the
//! uniformity short-circuit: every border pixel is sampled first, and when
//! all of them share the top-left corner's escape count the whole tile is
//! filled with that single color without evaluating the interior.

use vstd::prelude::*;
use vstd::arithmetic::div_mod::lemma_fundamental_div_mod_converse;
use crate::color::{Rgb, spec_color, calculate_color};
use crate::complex::{Complex, plane_of, plane_coord, escape_count};

verus! {

/// Largest accepted tile edge length.
pub const MAX_SQUARE_SIZE: u32 = 0x1000;

/// Magnitude bound on grid coordinates (2^53): far beyond the zoom range at
/// which fixed-point precision is meaningful, and small enough that every
/// intermediate product in the plane transform fits its machine type.
pub const GRID_LIMIT: i64 = 0x20_0000_0000_0000;

/// A grid-aligned square tile identity.
#[derive(Debug, Clone, Copy, PartialEq, Eq, Structural)]
pub struct Square {
    pub x: i64,
    pub y: i64,
    pub zoom: u64,
    pub size: u32,
    pub max_iter: u32,
}

/// The black pixel, the initial content of a tile buffer.
pub open spec fn black() -> Rgb {
    Rgb { r: 0, g: 0, b: 0 }
}

impl Square {
    /// Field bounds under which every computation on the tile stays in
    /// machine range.
    pub open spec fn wf(self) -> bool {
        &&& 1 <= self.zoom
        &&& 1 <= self.size <= MAX_SQUARE_SIZE
        &&& -(GRID_LIMIT as int) <= self.x as int <= GRID_LIMIT as int
        &&& -(GRID_LIMIT as int) <= self.y as int <= GRID_LIMIT as int
    }

    /// Builds the tile identity from its corner, zoom, edge length and
    /// iteration bound.
    pub fn new(x: i64, y: i64, zoom: u64, size: u32, max_iter: u32) -> (result: Self)
        requires
            1 <= zoom,
            1 <= size <= MAX_SQUARE_SIZE,
            -(GRID_LIMIT as int) <= x as int <= GRID_LIMIT as int,
            -(GRID_LIMIT as int) <= y as int <= GRID_LIMIT as int,
        ensures
            result == (Square { x, y, zoom, size, max_iter }),
            result.wf(),
    {
        Square { x, y, zoom, size, max_iter }
    }

    /// The escape count of the pixel `(dx, dy)` steps inward from the tile's
    /// top-left corner.
    pub open spec fn esc_at(self, dx: int, dy: int) -> nat {
        escape_count(
            plane_of(self.x + dx, self.zoom as int),
            plane_of(self.y + dy, self.zoom as int),
            self.max_iter as nat,
        )
    }

    /// The reference escape count: the tile's top-left corner.
    pub open spec fn prev_count(self) -> nat {
        self.esc_at(0, 0)
    }

    /// The border samples of the first `a` rows and columns all equal the
    /// corner's escape count.
    pub open spec fn uniform_upto(self, a: int) -> bool {
        forall|j: int|
            0 <= j < a ==> {
                &&& #[trigger] self.esc_at(j, 0) == self.prev_count()
                &&& self.esc_at(j, self.size - 1) == self.prev_count()
                &&& self.esc_at(0, j) == self.prev_count()
                &&& self.esc_at(self.size - 1, j) == self.prev_count()
            }
    }

    /// Every border pixel's escape count equals the corner's: the sampled
    /// condition under which the tile is declared uniform.
    pub open spec fn uniform(self) -> bool {
        self.uniform_upto(self.size as int)
    }

    /// The escape count the resolved tile reports for the pixel at row-major
    /// index `i`: the corner's count for a uniform tile, the pixel's own
    /// count otherwise.
    pub open spec fn pixel_count(self, i: int) -> nat {
        if self.uniform() {
            self.prev_count()
        } else {
            self.esc_at(i % (self.size as int), i / (self.size as int))
        }
    }

    /// The resolved tile's pixels in row-major order.
    pub open spec fn colors_spec(self) -> Seq<Rgb> {
        Seq::new((self.size * self.size) as nat, |i: int| spec_color(self.pixel_count(i) as int))
    }

    /// The content of the pixel buffer after the border scan has covered the
    /// first `a` rows and columns: sampled border pixels carry their color,
    /// everything else is still black.
    spec fn border_expected(self, idx: int, a: int) -> Rgb {
        let size = self.size as int;
        let r = idx / size;
        let c = idx % size;
        if ((r == 0 || r == size - 1) && c < a) || ((c == 0 || c == size - 1) && r < a) {
            spec_color(self.esc_at(c, r) as int)
        } else {
            black()
        }
    }

    /// The content of the pixel buffer during the dense interior pass: the
    /// border and every interior pixel before `(row, col)` carry their color,
    /// the rest is still black.
    spec fn dense_expected(self, idx: int, row: int, col: int) -> Rgb {
        let size = self.size as int;
        let r = idx / size;
        let c = idx % size;
        if r == 0 || r == size - 1 || c == 0 || c == size - 1 || r < row || (r == row && c
            < col) {
            spec_color(self.esc_at(c, r) as int)
        } else {
            black()
        }
    }

    /// Evaluates the escape count of one pixel of the tile.
    fn sample(&self, dx: u32, dy: u32) -> (result: u32)
        requires
            self.wf(),
            dx < self.size,
            dy < self.size,
        ensures
            result as nat == self.esc_at(dx as int, dy as int),
    {
        let cre = plane_coord(self.x + dx as i64, self.zoom);
        let cim = plane_coord(self.y + dy as i64, self.zoom);
        Complex::new(cre, cim).calculate_mandelbrot_iterations(self.max_iter)
    }

    /// Resolves the tile to its pixel contents.
    ///
    /// Every border pixel is evaluated first, against the top-left corner's
    /// escape count.  When all border samples agree, the tile is uniform:
    /// the corner's color fills all `size * size` pixels and the interior is
    /// never evaluated.  Otherwise every interior pixel is evaluated
    /// individually, so each pixel of the result carries its own color.
    #[verifier::rlimit(60)]
    pub fn calculate_square(&self) -> (result: SquareResult)
        requires
            self.wf(),
        ensures
            result.x == self.x,
            result.y == self.y,
            result.size == self.size,
            result.colors@ == self.colors_spec(),
    {
        let size: usize = self.size as usize;
        proof {
            assert(size * size <= 0x1000_000) by (nonlinear_arith)
                requires
                    0 <= size <= 0x1000;
        }
        let n: usize = size * size;
        let prev: u32 = self.sample(0, 0);
        let mut all_equal = true;
        let mut colors = fill_colors(n, Rgb { r: 0, g: 0, b: 0 });
        let mut a: usize = 0;
        proof {
            assert forall|idx: int| 0 <= idx < n implies #[trigger] colors@[idx]
                == self.border_expected(idx, 0) by {
                lemma_idx_decompose(size as int, idx);
            }
        }
        while a < size
            invariant
                self.wf(),
                size == self.size,
                n == size * size,
                a <= size,
                prev as nat == self.prev_count(),
                colors@.len() == n,
                forall|idx: int|
                    0 <= idx < n ==> #[trigger] colors@[idx] == self.border_expected(
                        idx, a as int),
                all_equal <==> self.uniform_upto(a as int),
            decreases size - a,
        {
            let last: usize = size - 1;
            let e1 = self.sample(a as u32, 0);
            let e2 = self.sample(a as u32, last as u32);
            let e3 = self.sample(0, a as u32);
            let e4 = self.sample(last as u32, a as u32);
            let ghost was_equal = all_equal;
            if e1 != prev || e2 != prev || e3 != prev || e4 != prev {
                all_equal = false;
            }
            proof {
                let sz = self.size as int;
                let an = a as int;
                if all_equal {
                    assert forall|j: int| 0 <= j < an + 1 implies {
                        &&& #[trigger] self.esc_at(j, 0) == self.prev_count()
                        &&& self.esc_at(j, sz - 1) == self.prev_count()
                        &&& self.esc_at(0, j) == self.prev_count()
                        &&& self.esc_at(sz - 1, j) == self.prev_count()
                    } by {
                        if j < an {
                            assert(self.uniform_upto(an));
                        }
                    }
                    assert(self.uniform_upto(an + 1));
                } else {
                    if self.uniform_upto(an + 1) {
                        if !was_equal {
                            assert forall|j: int| 0 <= j < an implies {
                                &&& #[trigger] self.esc_at(j, 0) == self.prev_count()
                                &&& self.esc_at(j, sz - 1) == self.prev_count()
                                &&& self.esc_at(0, j) == self.prev_count()
                                &&& self.esc_at(sz - 1, j) == self.prev_count()
                            } by {
                                assert(self.uniform_upto(an + 1));
                            }
                            assert(self.uniform_upto(an));
                            assert(false);
                        } else {
                            assert(self.esc_at(an, 0) == self.prev_count());
                            assert(self.esc_at(an, sz - 1) == self.prev_count());
                            assert(self.esc_at(0, an) == self.prev_count());
                            assert(self.esc_at(sz - 1, an) == self.prev_count());
                            assert(false);
                        }
                    }
                }
            }
            proof {
                assert(a < n && last * size + a < n && a * size < n && a * size + last < n)
                    by (nonlinear_arith)
                    requires
                        0 <= a < size,
                        last == size - 1,
                        n == size * size,
                        1 <= size;
            }
            colors[a] = calculate_color(e1);
            colors[last * size + a] = calculate_color(e2);
            colors[a * size] = calculate_color(e3);
            colors[a * size + last] = calculate_color(e4);
            proof {
                let sz = size as int;
                lemma_rowcol(sz, 0, a as int);
                lemma_rowcol(sz, sz - 1, a as int);
                lemma_rowcol(sz, a as int, 0);
                lemma_rowcol(sz, a as int, sz - 1);
                assert forall|idx: int| 0 <= idx < n implies #[trigger] colors@[idx]
                    == self.border_expected(idx, a as int + 1) by {
                    lemma_idx_decompose(sz, idx);
                }
            }
            a = a + 1;
        }
        if all_equal {
            let c0 = calculate_color(prev);
            let uni = fill_colors(n, c0);
            proof {
                assert(self.uniform());
                assert forall|i: int| 0 <= i < n implies #[trigger] uni@[i]
                    == self.colors_spec()[i] by {}
                assert(uni@ =~= self.colors_spec());
            }
            return SquareResult::new(uni, self.x, self.y, self.size);
        }
        let mut row: usize = 1;
        proof {
            assert forall|idx: int| 0 <= idx < n implies #[trigger] colors@[idx]
                == self.dense_expected(idx, 1, 1) by {
                lemma_idx_decompose(size as int, idx);
            }
        }
        while row + 1 < size
            invariant
                self.wf(),
                size == self.size,
                n == size * size,
                1 <= row <= size,
                colors@.len() == n,
                forall|idx: int|
                    0 <= idx < n ==> #[trigger] colors@[idx] == self.dense_expected(
                        idx, row as int, 1),
            decreases size - row,
        {
            let mut col: usize = 1;
            while col + 1 < size
                invariant
                    self.wf(),
                    size == self.size,
                    n == size * size,
                    1 <= row,
                    row + 1 < size,
                    1 <= col <= size,
                    colors@.len() == n,
                    forall|idx: int|
                        0 <= idx < n ==> #[trigger] colors@[idx] == self.dense_expected(
                            idx, row as int, col as int),
                decreases size - col,
            {
                let e = self.sample(col as u32, row as u32);
                proof {
                    assert(row * size + col < n) by (nonlinear_arith)
                        requires
                            n == size * size,
                            0 <= row < size,
                            0 <= col < size;
                }
                colors[row * size + col] = calculate_color(e);
                proof {
                    lemma_rowcol(size as int, row as int, col as int);
                    assert forall|idx: int| 0 <= idx < n implies #[trigger] colors@[idx]
                        == self.dense_expected(idx, row as int, col as int + 1) by {
                        lemma_idx_decompose(size as int, idx);
                    }
                }
                col = col + 1;
            }
            proof {
                assert forall|idx: int| 0 <= idx < n implies #[trigger] colors@[idx]
                    == self.dense_expected(idx, row as int + 1, 1) by {
                    lemma_idx_decompose(size as int, idx);
                }
            }
            row = row + 1;
        }
        proof {
            assert(!self.uniform());
            assert forall|i: int| 0 <= i < n implies #[trigger] colors@[i]
                == self.colors_spec()[i] by {
                lemma_idx_decompose(size as int, i);
            }
            assert(colors@ =~= self.colors_spec());
        }
        SquareResult::new(colors, self.x, self.y, self.size)
    }
}

/// The pixels of a resolved tile, row-major from the tile's top-left corner:
/// the pixel at index `i` sits at absolute grid coordinate
/// `(x + i % size, y + i / size)`.
#[derive(Debug)]
pub struct SquareResult {
    pub colors: Vec<Rgb>,
    pub x: i64,
    pub y: i64,
    pub size: u32,
}

/// One pixel of a resolved tile, at its absolute grid coordinate.
#[derive(Debug, Clone, Copy, PartialEq, Eq, Structural)]
pub struct Pixel {
    pub x: i64,
    pub y: i64,
    pub color: Rgb,
}

impl SquareResult {
    /// Packs a resolved tile from its pixel buffer and origin.
    pub fn new(colors: Vec<Rgb>, x: i64, y: i64, size: u32) -> (result: Self)
        ensures
            result.colors@ == colors@,
            result.x == x,
            result.y == y,
            result.size == size,
    {
        SquareResult { colors, x, y, size }
    }

    /// An owned copy of the result, pixel for pixel.
    pub fn duplicate(&self) -> (result: Self)
        ensures
            result.colors@ == self.colors@,
            result.x == self.x,
            result.y == self.y,
            result.size == self.size,
    {
        let mut colors: Vec<Rgb> = Vec::new();
        let mut i: usize = 0;
        while i < self.colors.len()
            invariant
                i <= self.colors@.len(),
                colors@.len() == i,
                forall|j: int| 0 <= j < i ==> colors@[j] == self.colors@[j],
            decreases self.colors@.len() - i,
        {
            colors.push(self.colors[i]);
            i = i + 1;
        }
        proof {
            assert(colors@ =~= self.colors@);
        }
        SquareResult { colors, x: self.x, y: self.y, size: self.size }
    }

    /// The pixel at row-major index `index`, with its absolute coordinate.
    pub fn pixel_at(&self, index: usize) -> (p: Pixel)
        requires
            1 <= self.size,
            self.colors@.len() == self.size * self.size,
            index < self.colors@.len(),
            -(GRID_LIMIT as int) <= self.x as int <= GRID_LIMIT as int,
            -(GRID_LIMIT as int) <= self.y as int <= GRID_LIMIT as int,
        ensures
            p.x == self.x + (index as int % (self.size as int)),
            p.y == self.y + (index as int / (self.size as int)),
            p.color == self.colors@[index as int],
    {
        let size = self.size as usize;
        proof {
            lemma_idx_decompose(size as int, index as int);
        }
        Pixel {
            x: self.x + (index % size) as i64,
            y: self.y + (index / size) as i64,
            color: self.colors[index],
        }
    }
}

/// A freshly allocated pixel buffer holding `n` copies of `c`.
fn fill_colors(n: usize, c: Rgb) -> (v: Vec<Rgb>)
    ensures
        v@.len() == n,
        forall|i: int| 0 <= i < n ==> v@[i] == c,
{
    let mut v: Vec<Rgb> = Vec::new();
    while v.len() < n
        invariant
            v@.len() <= n,
            forall|i: int| 0 <= i < v@.len() ==> v@[i] == c,
        decreases n - v@.len(),
    {
        v.push(c);
    }
    v
}

/// When every border sample equals the corner's escape count, the resolved
/// tile is the corner's color replicated over all of its pixels.
pub proof fn lemma_uniform_tile(sq: Square, i: int)
    requires
        sq.uniform(),
        0 <= i < sq.size * sq.size,
    ensures
        sq.colors_spec()[i] == spec_color(sq.prev_count() as int),
{
}

/// When some border sample differs from the corner's escape count, every
/// pixel of the resolved tile carries its own individually evaluated color.
pub proof fn lemma_dense_tile(sq: Square, i: int)
    requires
        !sq.uniform(),
        0 <= i < sq.size * sq.size,
    ensures
        sq.colors_spec()[i] == spec_color(
            sq.esc_at(i % (sq.size as int), i / (sq.size as int)) as int,
        ),
{
}

/// Any index below `size * size` decomposes into a row and column below
/// `size`.
pub(crate) proof fn lemma_idx_decompose(size: int, idx: int)
    requires
        1 <= size,
        0 <= idx < size * size,
    ensures
        idx == (idx / size) * size + (idx % size),
        0 <= idx % size < size,
        0 <= idx / size < size,
{
    vstd::arithmetic::div_mod::lemma_fundamental_div_mod(idx, size);
    vstd::arithmetic::div_mod::lemma_div_pos_is_pos(idx, size);
    vstd::arithmetic::mul::lemma_mul_is_commutative(size, idx / size);
    assert(0 <= idx % size < size) by {
        vstd::arithmetic::div_mod::lemma_mod_bound(idx, size);
    }
    assert(idx / size < size) by (nonlinear_arith)
        requires
            idx == size * (idx / size) + (idx % size),
            0 <= idx % size,
            idx < size * size,
            0 <= idx / size,
            1 <= size;
}

/// Row-major index arithmetic: the index `r * size + c` decomposes back into
/// row `r` and column `c`.
pub(crate) proof fn lemma_rowcol(size: int, r: int, c: int)
    requires
        1 <= size,
        0 <= r,
        0 <= c < size,
    ensures
        (r * size + c) / size == r,
        (r * size + c) % size == c,
{
    lemma_fundamental_div_mod_converse(r * size + c, size, r, c);
}

} // verus!
