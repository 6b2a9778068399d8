//! The render engine and its viewport.
//!
//! The viewport holds the visible window's pixel dimensions, a center in
//! integer "zoom units" (plane value = coordinate / zoom), the zoom scale and
//! the shared iteration bound.  Rendering cuts the plane into grid-aligned
//! 32-pixel tiles covering the visible rectangle with a one-tile margin on
//! the leading edges, resolves every tile in parallel — a cache hit
//! short-circuits the computation — writes all results back into the cache,
//! and scatters the tiles' pixels into the framebuffer, clipped per pixel to
//! the visible rectangle.
//!
//! Panning only shifts the center: tile identities are absolute, so the
//! cache stays valid.  Changing the zoom or the iteration bound clears the
//! cache wholesale, since tile identities minted under the old values would
//! never be looked up again.

use vstd::prelude::*;
use vstd::arithmetic::div_mod::{
    lemma_div_pos_is_pos, lemma_div_is_ordered, lemma_div_by_multiple, lemma_div_plus_one,
    lemma_fundamental_div_mod, lemma_fundamental_div_mod_converse,
};
use rayon::iter::IntoParallelRefIterator;
use rayon::iter::ParallelIterator;
use crate::SCALE;
use crate::cache::{SquareCache, coherent};
use crate::color::{Rgb, spec_color};
use crate::complex::{Complex, tdiv, tdiv64, tdiv128, plane_of, plane_coord, COORD_LIMIT};
use crate::framebuffer::{Framebuffer, lemma_pixel_bytes, lemma_bytes_len};
use crate::square::{Square, SquareResult, GRID_LIMIT};

verus! {

/// The zoom scale never drops below this floor.
pub const ZOOM_FLOOR: u64 = 16;

/// The zoom scale never exceeds the fixed-point scale: beyond it a pixel
/// step would be finer than the fixed-point resolution.
pub const ZOOM_MAX: u64 = 0x1_0000_0000_0000;

/// Magnitude bound on the viewport center (2^52): the engine's precision
/// ceiling.  Pans and zooms saturate here instead of overflowing.
pub const CENTER_LIMIT: i64 = 0x10_0000_0000_0000;

/// Largest accepted window dimension, in pixels.
pub const MAX_DIM: u32 = 0x4000;

/// Tile edge length, in pixels.
pub const SQUARE_SIZE: u32 = 32;

/// A value clamped to the accepted center range.
pub open spec fn clamp_center(v: int) -> int {
    if v < -(CENTER_LIMIT as int) {
        -(CENTER_LIMIT as int)
    } else if v > CENTER_LIMIT as int {
        CENTER_LIMIT as int
    } else {
        v
    }
}

/// A value clamped to the accepted zoom range.
pub open spec fn clamp_zoom(v: int) -> int {
    if v < ZOOM_FLOOR as int {
        ZOOM_FLOOR as int
    } else if v > ZOOM_MAX as int {
        ZOOM_MAX as int
    } else {
        v
    }
}

/// A value clamped to the accepted dimension range.
pub open spec fn clamp_dim(v: int) -> int {
    if v < 1 {
        1
    } else if v > MAX_DIM as int {
        MAX_DIM as int
    } else {
        v
    }
}

/// A value clamped to the `u32` range.
pub open spec fn clamp_u32(v: int) -> int {
    if v < 0 {
        0
    } else if v > u32::MAX as int {
        u32::MAX as int
    } else {
        v
    }
}

/// The zoom scale after `steps` wheel notches: each notch scales by 133/100
/// upward or by 100/133 downward, truncating.
pub open spec fn zoom_scaled(z: int, steps: nat, up: bool) -> int
    decreases steps,
{
    if steps == 0 {
        z
    } else {
        zoom_scaled(
            if up {
                z * 133 / 100
            } else {
                z * 100 / 133
            },
            (steps - 1) as nat,
            up,
        )
    }
}

/// The largest grid-aligned coordinate strictly below `t`, one tile further
/// out: the origin of the tile coverage for a visible edge at `t`.
pub open spec fn grid_start(t: int) -> int {
    tdiv(t, 32) * 32 - 32
}

/// Scaling up never shrinks a nonnegative zoom.
proof fn lemma_zoom_up_ge(z: int, m: nat)
    requires
        z >= 0,
    ensures
        zoom_scaled(z, m, true) >= z,
    decreases m,
{
    if m > 0 {
        let z2 = z * 133 / 100;
        assert(z * 100 <= z * 133) by (nonlinear_arith)
            requires
                z >= 0;
        lemma_div_is_ordered(z * 100, z * 133, 100);
        lemma_div_by_multiple(z, 100);
        lemma_zoom_up_ge(z2, (m - 1) as nat);
    }
}

/// Scaling down never grows a nonnegative zoom, and keeps it nonnegative.
proof fn lemma_zoom_down_le(z: int, m: nat)
    requires
        z >= 0,
    ensures
        0 <= zoom_scaled(z, m, false) <= z,
    decreases m,
{
    if m > 0 {
        let z2 = z * 100 / 133;
        assert(z * 100 <= z * 133) by (nonlinear_arith)
            requires
                z >= 0;
        lemma_div_is_ordered(z * 100, z * 133, 133);
        lemma_div_by_multiple(z, 133);
        lemma_div_pos_is_pos(z * 100, 133);
        lemma_zoom_down_le(z2, (m - 1) as nat);
    }
}

/// Clamps an `i128` to the accepted center range.
fn clamp_center_exec(v: i128) -> (result: i64)
    ensures
        result as int == clamp_center(v as int),
{
    let lim: i128 = CENTER_LIMIT as i128;
    if v < -lim {
        -CENTER_LIMIT
    } else if v > lim {
        CENTER_LIMIT
    } else {
        v as i64
    }
}

/// The incremental fractal renderer: a viewport onto the plane together
/// with the tile cache of its previous frames.
pub struct Mandelbrot {
    pub width: u32,
    pub height: u32,
    pub max_iter: u32,
    pub center_x: i64,
    pub center_y: i64,
    pub zoom: u64,
    pub last_squares: SquareCache,
}

impl Mandelbrot {
    /// Field bounds under which rendering stays in machine range, and
    /// coherence of the tile cache.
    pub closed spec fn wf(self) -> bool {
        &&& 1 <= self.width <= MAX_DIM
        &&& 1 <= self.height <= MAX_DIM
        &&& ZOOM_FLOOR <= self.zoom <= ZOOM_MAX
        &&& -(CENTER_LIMIT as int) <= self.center_x as int <= CENTER_LIMIT as int
        &&& -(CENTER_LIMIT as int) <= self.center_y as int <= CENTER_LIMIT as int
        &&& self.last_squares.wf()
    }

    /// Whether the cache holds a result for the tile `k`.
    pub closed spec fn cached(self, k: Square) -> bool {
        self.last_squares.contains(k)
    }

    /// The number of cached tiles.
    pub closed spec fn cache_len(self) -> nat {
        self.last_squares.spec_len()
    }

    /// Builds an engine with an empty cache.
    pub fn new(width: u32, height: u32, max_iter: u32, center_x: i64, center_y: i64, zoom: u64)
        -> (result: Self)
        requires
            1 <= width <= MAX_DIM,
            1 <= height <= MAX_DIM,
            ZOOM_FLOOR <= zoom <= ZOOM_MAX,
            -(CENTER_LIMIT as int) <= center_x as int <= CENTER_LIMIT as int,
            -(CENTER_LIMIT as int) <= center_y as int <= CENTER_LIMIT as int,
        ensures
            result.wf(),
            result.width == width,
            result.height == height,
            result.max_iter == max_iter,
            result.center_x == center_x,
            result.center_y == center_y,
            result.zoom == zoom,
            result.cache_len() == 0,
            forall|k: Square| !result.cached(k),
    {
        Mandelbrot {
            width,
            height,
            max_iter,
            center_x,
            center_y,
            zoom,
            last_squares: SquareCache::new(),
        }
    }

    /// The number of cached tiles.
    pub fn cached_count(&self) -> (result: usize)
        ensures
            result == self.cache_len(),
    {
        self.last_squares.len()
    }

    /// Pans the viewport: the center moves by the given pixel offsets,
    /// saturating at the center range.  The cache is kept: tile identities
    /// are absolute, not viewport-relative.
    pub fn move_center(&mut self, x: i64, y: i64)
        requires
            old(self).wf(),
        ensures
            final(self).wf(),
            final(self).center_x as int == clamp_center(old(self).center_x + x),
            final(self).center_y as int == clamp_center(old(self).center_y + y),
            final(self).width == old(self).width,
            final(self).height == old(self).height,
            final(self).zoom == old(self).zoom,
            final(self).max_iter == old(self).max_iter,
            final(self).cache_len() == old(self).cache_len(),
            forall|k: Square| final(self).cached(k) <==> old(self).cached(k),
    {
        self.center_x = clamp_center_exec(self.center_x as i128 + x as i128);
        self.center_y = clamp_center_exec(self.center_y as i128 + y as i128);
    }

    /// Adjusts the iteration bound by `delta`, saturating at the `u32`
    /// range, and clears the cache: tile identities carry the bound.
    pub fn increase_max_iter(&mut self, delta: i32)
        requires
            old(self).wf(),
        ensures
            final(self).wf(),
            final(self).max_iter as int == clamp_u32(old(self).max_iter + delta),
            final(self).width == old(self).width,
            final(self).height == old(self).height,
            final(self).zoom == old(self).zoom,
            final(self).center_x == old(self).center_x,
            final(self).center_y == old(self).center_y,
            final(self).cache_len() == 0,
            forall|k: Square| !final(self).cached(k),
    {
        let raw: i64 = self.max_iter as i64 + delta as i64;
        self.max_iter = if raw < 0 {
            0
        } else if raw > u32::MAX as i64 {
            u32::MAX
        } else {
            raw as u32
        };
        self.last_squares.clear();
    }

    /// Rescales the zoom by 133/100 per wheel notch, clamped to the zoom
    /// range, and moves the center so that the plane point under the cursor
    /// stays fixed across the operation.  Clears the cache: tile identities
    /// carry the zoom.
    pub fn zoom(&mut self, wheel: i32, mouse_x: i32, mouse_y: i32)
        requires
            old(self).wf(),
        ensures
            final(self).wf(),
            final(self).zoom as int == clamp_zoom(
                zoom_scaled(
                    old(self).zoom as int,
                    (if wheel >= 0 {
                        wheel as int
                    } else {
                        -(wheel as int)
                    }) as nat,
                    wheel >= 0,
                ),
            ),
            final(self).center_x as int == clamp_center(
                tdiv(old(self).center_x * final(self).zoom, old(self).zoom as int) + tdiv(
                    (mouse_x - old(self).width as int / 2) * (final(self).zoom
                        - old(self).zoom), old(self).zoom as int)),
            final(self).center_y as int == clamp_center(
                tdiv(old(self).center_y * final(self).zoom, old(self).zoom as int) + tdiv(
                    (mouse_y - old(self).height as int / 2) * (final(self).zoom
                        - old(self).zoom), old(self).zoom as int)),
            final(self).width == old(self).width,
            final(self).height == old(self).height,
            final(self).max_iter == old(self).max_iter,
            final(self).cache_len() == 0,
            forall|k: Square| !final(self).cached(k),
    {
        let up = wheel >= 0;
        let steps: u32 = if wheel >= 0 {
            wheel as u32
        } else {
            (-(wheel as i64)) as u32
        };
        let ghost z0 = self.zoom as int;
        let mut cur: u64 = self.zoom;
        let mut k: u32 = 0;
        let mut done = false;
        while k < steps && !done
            invariant
                zoom_scaled(z0, steps as nat, up) == zoom_scaled(
                    cur as int, (steps - k) as nat, up),
                0 <= cur <= 2 * ZOOM_MAX,
                done ==> ((up && cur >= ZOOM_MAX) || (!up && cur <= ZOOM_FLOOR)),
                k <= steps,
            decreases steps - k, (if done { 0int } else { 1int }),
        {
            if up {
                if cur >= ZOOM_MAX {
                    done = true;
                } else {
                    cur = cur * 133 / 100;
                    k = k + 1;
                }
            } else {
                if cur <= ZOOM_FLOOR {
                    done = true;
                } else {
                    cur = cur * 100 / 133;
                    k = k + 1;
                }
            }
        }
        let new_zoom: u64 = if cur < ZOOM_FLOOR {
            ZOOM_FLOOR
        } else if cur > ZOOM_MAX {
            ZOOM_MAX
        } else {
            cur
        };
        proof {
            if k == steps && !done {
                assert(zoom_scaled(z0, steps as nat, up) == cur as int);
            } else {
                if up {
                    lemma_zoom_up_ge(cur as int, (steps - k) as nat);
                } else {
                    lemma_zoom_down_le(cur as int, (steps - k) as nat);
                }
            }
            assert(new_zoom as int == clamp_zoom(zoom_scaled(z0, steps as nat, up)));
        }
        let wz: i128 = self.zoom as i128;
        let nzi: i128 = new_zoom as i128;
        let half_w: u32 = self.width / 2;
        let half_h: u32 = self.height / 2;
        let dx: i128 = mouse_x as i128 - half_w as i128;
        let dy: i128 = mouse_y as i128 - half_h as i128;
        proof {
            crate::complex::lemma_mul_bound(dx as int, nzi - wz, 0x1_0000_0000,
                0x1_0000_0000_0000);
            crate::complex::lemma_mul_bound(dy as int, nzi - wz, 0x1_0000_0000,
                0x1_0000_0000_0000);
            crate::complex::lemma_mul_bound(self.center_x as int, nzi as int,
                0x10_0000_0000_0000, 0x1_0000_0000_0000);
            crate::complex::lemma_mul_bound(self.center_y as int, nzi as int,
                0x10_0000_0000_0000, 0x1_0000_0000_0000);
        }
        let xoff = tdiv128(dx * (nzi - wz), wz);
        let yoff = tdiv128(dy * (nzi - wz), wz);
        let cx = tdiv128(self.center_x as i128 * nzi, wz);
        let cy = tdiv128(self.center_y as i128 * nzi, wz);
        proof {
            crate::complex::lemma_tdiv_bound(dx as int * (nzi - wz), wz as int,
                0x1_0000_0000_0000_0000_0000);
            crate::complex::lemma_tdiv_bound(dy as int * (nzi - wz), wz as int,
                0x1_0000_0000_0000_0000_0000);
            crate::complex::lemma_tdiv_bound(self.center_x as int * (nzi as int), wz as int,
                0x10_0000_0000_0000_0000_0000_0000);
            crate::complex::lemma_tdiv_bound(self.center_y as int * (nzi as int), wz as int,
                0x10_0000_0000_0000_0000_0000_0000);
        }
        self.center_x = clamp_center_exec(cx + xoff);
        self.center_y = clamp_center_exec(cy + yoff);
        self.zoom = new_zoom;
        self.last_squares.clear();
    }

    /// A fresh engine whose window grew by the given deltas, with the zoom
    /// rescaled so the framing is preserved, the center rescaled to match,
    /// and an empty cache.
    pub fn change_size(&self, delta_width: u32, delta_height: u32) -> (result: Self)
        requires
            self.wf(),
        ensures
            result.wf(),
            result.width as int == clamp_dim(self.width + delta_width),
            result.height as int == clamp_dim(self.height + delta_height),
            result.max_iter == self.max_iter,
            result.zoom as int == clamp_zoom(
                tdiv(self.zoom * clamp_dim(self.height + delta_height), self.height as int)),
            result.center_x as int == clamp_center(
                tdiv(self.center_x * result.zoom, self.zoom as int)),
            result.center_y as int == clamp_center(
                tdiv(self.center_y * result.zoom, self.zoom as int)),
            result.cache_len() == 0,
            forall|k: Square| !result.cached(k),
    {
        let nw64: u64 = self.width as u64 + delta_width as u64;
        let nh64: u64 = self.height as u64 + delta_height as u64;
        let nw: u32 = if nw64 > MAX_DIM as u64 {
            MAX_DIM
        } else {
            nw64 as u32
        };
        let nh: u32 = if nh64 > MAX_DIM as u64 {
            MAX_DIM
        } else {
            nh64 as u32
        };
        proof {
            crate::complex::lemma_mul_bound(self.zoom as int, nh as int, 0x1_0000_0000_0000,
                0x4000);
        }
        let zraw: u64 = self.zoom * nh as u64 / self.height as u64;
        let nz: u64 = if zraw < ZOOM_FLOOR {
            ZOOM_FLOOR
        } else if zraw > ZOOM_MAX {
            ZOOM_MAX
        } else {
            zraw
        };
        proof {
            crate::complex::lemma_mul_bound(self.center_x as int, nz as int,
                0x10_0000_0000_0000, 0x1_0000_0000_0000);
            crate::complex::lemma_mul_bound(self.center_y as int, nz as int,
                0x10_0000_0000_0000, 0x1_0000_0000_0000);
        }
        let cx = tdiv128(self.center_x as i128 * nz as i128, self.zoom as i128);
        let cy = tdiv128(self.center_y as i128 * nz as i128, self.zoom as i128);
        Mandelbrot {
            width: nw,
            height: nh,
            max_iter: self.max_iter,
            center_x: clamp_center_exec(cx),
            center_y: clamp_center_exec(cy),
            zoom: nz,
            last_squares: SquareCache::new(),
        }
    }

    /// The plane point under the pixel `(px, py)`, in fixed-point units.
    /// The imaginary axis is inverted: screen y grows downward.
    pub fn pixel_to_plane(&self, px: i32, py: i32) -> (result: Complex)
        requires
            self.wf(),
        ensures
            result.re as int == plane_of(
                self.center_x + px - self.width as int / 2, self.zoom as int),
            result.im as int == -plane_of(
                self.center_y + py - self.height as int / 2, self.zoom as int),
            result.in_range(),
    {
        let half_w: u32 = self.width / 2;
        let half_h: u32 = self.height / 2;
        let gx: i64 = self.center_x + px as i64 - half_w as i64;
        let gy: i64 = self.center_y + py as i64 - half_h as i64;
        let re = plane_coord(gx, self.zoom);
        let im = plane_coord(gy, self.zoom);
        Complex { re, im: -im }
    }

    /// The inverse of `pixel_to_plane` up to truncation: the pixel whose
    /// plane point is `c`.
    pub fn plane_to_pixel(&self, c: Complex) -> (result: (i64, i64))
        requires
            self.wf(),
            c.in_range(),
        ensures
            result.0 as int == tdiv(c.re * self.zoom, SCALE as int) - self.center_x
                + self.width as int / 2,
            result.1 as int == tdiv(-c.im * self.zoom, SCALE as int) - self.center_y
                + self.height as int / 2,
    {
        let half_w: u32 = self.width / 2;
        let half_h: u32 = self.height / 2;
        proof {
            crate::complex::lemma_mul_bound(c.re as int, self.zoom as int, 0x4_0000_0000_0000,
                0x1_0000_0000_0000);
            crate::complex::lemma_mul_bound(-(c.im as int), self.zoom as int,
                0x4_0000_0000_0000, 0x1_0000_0000_0000);
        }
        let qx = tdiv128(c.re as i128 * self.zoom as i128, SCALE as i128);
        let qy = tdiv128(-(c.im as i128) * self.zoom as i128, SCALE as i128);
        proof {
            crate::complex::lemma_tdiv_bound(c.re as int * (self.zoom as int), SCALE as int,
                0x4_0000_0000_0000_0000_0000_0000);
            crate::complex::lemma_tdiv_bound(-(c.im as int) * (self.zoom as int), SCALE as int,
                0x4_0000_0000_0000_0000_0000_0000);
            assert(0x4_0000_0000_0000_0000_0000_0000int / (SCALE as int) == 0x4_0000_0000_0000int)
                by {
                lemma_div_by_multiple(0x4_0000_0000_0000int, SCALE as int);
            }
        }
        ((qx as i64) - self.center_x + half_w as i64, (qy as i64) - self.center_y + half_h as i64)
    }
}

impl Mandelbrot {
    /// The visible rectangle's top-left corner in grid coordinates.
    pub open spec fn top_x(self) -> int {
        self.center_x - self.width as int / 2
    }

    pub open spec fn top_y(self) -> int {
        self.center_y - self.height as int / 2
    }

    /// The grid origin of the tile coverage along each axis.
    pub open spec fn start_x(self) -> int {
        grid_start(self.top_x())
    }

    pub open spec fn start_y(self) -> int {
        grid_start(self.top_y())
    }

    /// The number of coverage tiles along each axis.
    pub open spec fn nx(self) -> int {
        (self.top_x() + self.width - self.start_x() + 31) / 32
    }

    pub open spec fn ny(self) -> int {
        (self.top_y() + self.height - self.start_y() + 31) / 32
    }

    /// The tile at coverage position `(i, j)`.
    pub open spec fn grid_square(self, i: int, j: int) -> Square {
        Square {
            x: (self.start_x() + 32 * i) as i64,
            y: (self.start_y() + 32 * j) as i64,
            zoom: self.zoom,
            size: SQUARE_SIZE,
            max_iter: self.max_iter,
        }
    }

    /// The tiles covering the visible rectangle, x-major.
    pub open spec fn coverage(self) -> Seq<Square> {
        Seq::new(
            (self.nx() * self.ny()) as nat,
            |k: int| self.grid_square(k / self.ny(), k % self.ny()),
        )
    }

    /// Coverage position of the tile containing the screen pixel column
    /// `px` and row `py`.
    pub open spec fn tile_i(self, px: int) -> int {
        (self.top_x() + px - self.start_x()) / 32
    }

    pub open spec fn tile_j(self, py: int) -> int {
        (self.top_y() + py - self.start_y()) / 32
    }

    /// Position of the containing tile in the coverage list.
    pub open spec fn tile_index(self, px: int, py: int) -> int {
        self.tile_i(px) * self.ny() + self.tile_j(py)
    }

    /// Row-major index of the screen pixel within its containing tile.
    pub open spec fn inner_idx(self, px: int, py: int) -> int {
        (self.top_y() + py - self.start_y() - 32 * self.tile_j(py)) * 32 + (self.top_x() + px
            - self.start_x() - 32 * self.tile_i(px))
    }

    /// The color rendering assigns to the screen pixel `(px, py)`: the
    /// containing tile's resolved pixel there.  A pure function of the
    /// viewport fields alone — rendering does not depend on the cache.
    pub open spec fn pixel_color(self, px: int, py: int) -> Rgb {
        spec_color(
            self.grid_square(self.tile_i(px), self.tile_j(py)).pixel_count(
                self.inner_idx(px, py),
            ) as int,
        )
    }

    /// The full rendered frame: bytes row-major, three per pixel.
    pub open spec fn rendered_image(self) -> Seq<u8> {
        Seq::new(
            (3 * (self.width as int) * (self.height as int)) as nat,
            |b: int|
                {
                    let p = b / 3;
                    let px = p % (self.width as int);
                    let py = p / (self.width as int);
                    let c = self.pixel_color(px, py);
                    if b % 3 == 0 {
                        c.r
                    } else if b % 3 == 1 {
                        c.g
                    } else {
                        c.b
                    }
                },
        )
    }
}

/// The coverage origin sits between one and sixty-three grid units before
/// the visible edge, on the 32-unit grid.
proof fn lemma_grid_start_bounds(t: int)
    ensures
        t - 63 <= grid_start(t) <= t - 1,
{
    if t >= 0 {
        lemma_fundamental_div_mod(t, 32);
        vstd::arithmetic::div_mod::lemma_mod_bound(t, 32);
    } else {
        lemma_fundamental_div_mod(-t, 32);
        vstd::arithmetic::div_mod::lemma_mod_bound(-t, 32);
    }
}

/// Every coordinate of the visible range lands in exactly one coverage tile
/// along its axis: its tile position is in range and its tile's 32-unit
/// footprint contains it.
proof fn lemma_axis_cover(t: int, extent: int, v: int)
    requires
        1 <= extent,
        t <= v < t + extent,
    ensures
        0 <= (v - grid_start(t)) / 32 < (t + extent - grid_start(t) + 31) / 32,
        grid_start(t) + 32 * ((v - grid_start(t)) / 32) <= v,
        v < grid_start(t) + 32 * ((v - grid_start(t)) / 32) + 32,
{
    let s = grid_start(t);
    lemma_grid_start_bounds(t);
    let q = (v - s) / 32;
    lemma_fundamental_div_mod(v - s, 32);
    vstd::arithmetic::div_mod::lemma_mod_bound(v - s, 32);
    lemma_div_pos_is_pos(v - s, 32);
    let span = t + extent - s;
    lemma_div_is_ordered(v - s, span - 1, 32);
    lemma_div_plus_one(span - 1, 32);
}

/// Rendering is deterministic in the viewport: two engines whose viewport
/// fields agree render byte-identical frames, whatever each one's cache
/// holds.  Together with `calculate_mandelbrot`'s contract this gives cache
/// idempotence — re-rendering an unchanged viewport reproduces the frame —
/// and rules out any stale reuse: no cache state can change a frame.
pub proof fn lemma_render_deterministic(m1: Mandelbrot, m2: Mandelbrot)
    requires
        m1.width == m2.width,
        m1.height == m2.height,
        m1.max_iter == m2.max_iter,
        m1.center_x == m2.center_x,
        m1.center_y == m2.center_y,
        m1.zoom == m2.zoom,
    ensures
        m1.rendered_image() == m2.rendered_image(),
{
    assert forall|b: int| 0 <= b < m1.rendered_image().len() implies m1.rendered_image()[b]
        == m2.rendered_image()[b] by {
        let p = b / 3;
        let px = p % (m1.width as int);
        let py = p / (m1.width as int);
        assert(m1.grid_square(m1.tile_i(px), m1.tile_j(py)) == m2.grid_square(
            m2.tile_i(px), m2.tile_j(py)));
        assert(m1.inner_idx(px, py) == m2.inner_idx(px, py));
        assert(m1.pixel_color(px, py) == m2.pixel_color(px, py));
    }
    assert(m1.rendered_image() =~= m2.rendered_image());
}

/// In a 64 x 64 viewport centered on the origin at the zoom floor, the
/// center pixel sits exactly over the origin of the plane, which never
/// escapes: the rendered center pixel is black, under every iteration
/// bound.
pub proof fn lemma_center_pixel_black(m: Mandelbrot)
    requires
        m.width == 64,
        m.height == 64,
        m.center_x == 0,
        m.center_y == 0,
        m.zoom == 16,
    ensures
        m.pixel_color(32, 32) == (Rgb { r: 0, g: 0, b: 0 }),
{
    let sq = m.grid_square(m.tile_i(32), m.tile_j(32));
    assert(m.top_x() == -32 && m.top_y() == -32);
    assert(tdiv(-32, 32) == -1);
    assert(m.start_x() == -64 && m.start_y() == -64);
    assert(m.tile_i(32) == 2 && m.tile_j(32) == 2);
    assert(sq.x == 0 && sq.y == 0 && sq.zoom == 16 && sq.size == 32);
    assert(m.inner_idx(32, 32) == 0);
    assert(plane_of(0, 16) == 0) by {
        vstd::arithmetic::div_mod::lemma_div_of0(16);
    }
    crate::complex::lemma_origin_never_escapes(m.max_iter as nat);
    assert(sq.prev_count() == 0);
    assert(sq.esc_at(0int % 32, 0int / 32) == 0);
    assert(sq.pixel_count(0) == 0);
}

/// Resolves one tile against the cache: the cached result on a hit, a
/// fresh computation on a miss.  Either way the result is coherent with the
/// key, so a hit is indistinguishable from a fresh computation.
fn resolve_with_cache(sq: &Square, cache: &SquareCache) -> (result: (Square, SquareResult))
    requires
        sq.wf(),
        cache.wf(),
    ensures
        result.0 == *sq,
        coherent(*sq, result.1),
{
    match cache.get(sq) {
        Some(v) => (*sq, v.duplicate()),
        None => (*sq, sq.calculate_square()),
    }
}

/// Relies on rayon's `ParallelIterator::map` and `collect` into a `Vec`:
/// the map applies its closure to each element of the slice, and collecting
/// an indexed parallel iterator into a `Vec` keeps the input's order.  The
/// closure only calls the verified `resolve_with_cache`, whose contract
/// pins each element of the output; the cache is only read during the
/// fan-out.
#[verifier::external_body]
fn par_resolve(squares: &Vec<Square>, cache: &SquareCache) -> (results: Vec<
    (Square, SquareResult),
>)
    requires
        cache.wf(),
        forall|i: int| 0 <= i < squares@.len() ==> (#[trigger] squares@[i]).wf(),
    ensures
        results@.len() == squares@.len(),
        forall|i: int|
            0 <= i < squares@.len() ==> (#[trigger] results@[i]).0 == squares@[i] && coherent(
                squares@[i], results@[i].1),
{
    squares.par_iter().map(|sq| resolve_with_cache(sq, cache)).collect()
}

impl Mandelbrot {
    /// Renders the current viewport into a fresh framebuffer.
    ///
    /// The tiles covering the visible rectangle, with a one-tile margin on
    /// the leading edges, are resolved in parallel — a cache hit
    /// short-circuits the computation — then every result is written back
    /// into the cache and its pixels are scattered into the framebuffer,
    /// clipped per pixel to the visible rectangle.  The frame is a function
    /// of the viewport alone: the cache only ever supplies results
    /// identical to a fresh computation, so re-rendering an unchanged
    /// viewport is byte-identical.
    #[verifier::loop_isolation(false)]
    #[verifier::rlimit(100)]
    pub fn calculate_mandelbrot(&mut self) -> (result: Framebuffer)
        requires
            old(self).wf(),
        ensures
            final(self).wf(),
            final(self).width == old(self).width,
            final(self).height == old(self).height,
            final(self).max_iter == old(self).max_iter,
            final(self).center_x == old(self).center_x,
            final(self).center_y == old(self).center_y,
            final(self).zoom == old(self).zoom,
            result.wf(),
            result.spec_width() == old(self).width,
            result.spec_height() == old(self).height,
            result.bytes() == old(self).rendered_image(),
            forall|k: Square|
                final(self).cached(k) <==> old(self).cached(k) || old(self).coverage().contains(
                    k),
    {
        let ghost m = *old(self);
        let top_x: i64 = self.center_x - (self.width / 2) as i64;
        let top_y: i64 = self.center_y - (self.height / 2) as i64;
        proof {
            crate::complex::lemma_tdiv_bound(top_x as int, 32, 0x10_0000_0000_4000);
            crate::complex::lemma_tdiv_bound(top_y as int, 32, 0x10_0000_0000_4000);
        }
        let start_x: i64 = tdiv64(top_x, 32) * 32 - 32;
        let start_y: i64 = tdiv64(top_y, 32) * 32 - 32;
        proof {
            lemma_grid_start_bounds(top_x as int);
            lemma_grid_start_bounds(top_y as int);
            assert(start_x as int == m.start_x());
            assert(start_y as int == m.start_y());
        }
        let spanx: i64 = top_x + self.width as i64 - start_x;
        let spany: i64 = top_y + self.height as i64 - start_y;
        let nx: usize = tdiv64(spanx + 31, 32) as usize;
        let ny: usize = tdiv64(spany + 31, 32) as usize;
        proof {
            lemma_div_pos_is_pos(spanx + 31, 32);
            lemma_div_pos_is_pos(spany + 31, 32);
            lemma_div_is_ordered(33, spanx + 31, 32);
            lemma_div_is_ordered(33, spany + 31, 32);
            lemma_div_is_ordered(spanx + 31, 0x405e, 32);
            lemma_div_is_ordered(spany + 31, 0x405e, 32);
            assert(nx as int == m.nx());
            assert(ny as int == m.ny());
            assert(1 <= nx <= 515 && 1 <= ny <= 515);
        }
        let mut squares: Vec<Square> = Vec::new();
        let mut i: usize = 0;
        while i < nx
            invariant
                i <= nx,
                squares@.len() == i * ny,
                forall|k: int|
                    0 <= k < squares@.len() ==> #[trigger] squares@[k] == m.grid_square(
                        k / (ny as int), k % (ny as int)),
            decreases nx - i,
        {
            proof {
                assert(i * ny + ny <= 515 * 515) by (nonlinear_arith)
                    requires
                        0 <= i < nx,
                        nx <= 515,
                        1 <= ny <= 515,
                ;
            }
            let x: i64 = start_x + 32 * (i as i64);
            let mut j: usize = 0;
            while j < ny
                invariant
                    j <= ny,
                    i < nx,
                    x as int == m.start_x() + 32 * (i as int),
                    squares@.len() == i * ny + j,
                    forall|k: int|
                        0 <= k < squares@.len() ==> #[trigger] squares@[k] == m.grid_square(
                            k / (ny as int), k % (ny as int)),
                decreases ny - j,
            {
                let y: i64 = start_y + 32 * (j as i64);
                let sq = Square::new(x, y, self.zoom, SQUARE_SIZE, self.max_iter);
                squares.push(sq);
                proof {
                    lemma_fundamental_div_mod_converse(
                        (i as int) * (ny as int) + (j as int), ny as int, i as int, j as int);
                    assert(sq == m.grid_square(i as int, j as int));
                }
                j = j + 1;
            }
            proof {
                assert((i as int + 1) * (ny as int) == (i as int) * (ny as int) + ny as int)
                    by (nonlinear_arith);
            }
            i = i + 1;
        }
        proof {
            assert(squares@.len() == m.coverage().len());
            assert(squares@ =~= m.coverage());
            assert forall|k: int| 0 <= k < squares@.len() implies (
            #[trigger] squares@[k]).wf() by {
                lemma_rect_decompose(nx as int, ny as int, k);
            }
        }
        let results = par_resolve(&squares, &self.last_squares);
        let mut fb = Framebuffer::new(self.width, self.height);
        proof {
            assert forall|px: int, py: int|
                0 <= px < m.width && 0 <= py < m.height implies #[trigger] fb.pixel_spec(px, py)
                == crate::square::black() by {
                lemma_pixel_bytes(fb, px, py);
            }
        }
        let mut t: usize = 0;
        while t < results.len()
            invariant
                t <= results@.len(),
                fb.wf(),
                fb.spec_width() == m.width as int,
                fb.spec_height() == m.height as int,
                forall|px: int, py: int|
                    0 <= px < m.width && 0 <= py < m.height ==> #[trigger] fb.pixel_spec(px, py)
                        == if m.tile_index(px, py) < t as int {
                        m.pixel_color(px, py)
                    } else {
                        crate::square::black()
                    },
            decreases results@.len() - t,
        {
            let ghost ti = t as int;
            let ghost nyi = ny as int;
            let ghost sqg = m.grid_square(ti / nyi, ti % nyi);
            let mut idx: usize = 0;
            while idx < 1024
                invariant
                    idx <= 1024,
                    t < results@.len(),
                    fb.wf(),
                    fb.spec_width() == m.width as int,
                    fb.spec_height() == m.height as int,
                    forall|px: int, py: int|
                        0 <= px < m.width && 0 <= py < m.height ==> #[trigger] fb.pixel_spec(
                            px, py) == if m.tile_index(px, py) < ti || (m.tile_index(px, py)
                            == ti && m.inner_idx(px, py) < idx as int) {
                            m.pixel_color(px, py)
                        } else {
                            crate::square::black()
                        },
                decreases 1024 - idx,
            {
                proof {
                    crate::square::lemma_idx_decompose(32, idx as int);
                    lemma_rect_decompose(nx as int, nyi, ti);
                }
                let pres = &results[t];
                let p = pres.1.pixel_at(idx);
                if p.x >= top_x && p.y >= top_y && p.x < top_x + self.width as i64 && p.y < top_y
                    + self.height as i64 {
                    let px = (p.x - top_x) as usize;
                    let py = (p.y - top_y) as usize;
                    fb.put_pixel(px, py, p.color);
                    proof {
                        let pxi = px as int;
                        let pyi = py as int;
                        lemma_pixel_classify(m, ti, idx as int, pxi, pyi);
                        assert(p.color == m.pixel_color(pxi, pyi));
                        assert forall|qx: int, qy: int|
                            0 <= qx < m.width && 0 <= qy < m.height implies #[trigger] fb
                            .pixel_spec(qx, qy) == if m.tile_index(qx, qy) < ti || (
                            m.tile_index(qx, qy) == ti && m.inner_idx(qx, qy) < idx as int
                                + 1) {
                            m.pixel_color(qx, qy)
                        } else {
                            crate::square::black()
                        } by {
                            if !(qx == pxi && qy == pyi) {
                                if m.tile_index(qx, qy) == ti && m.inner_idx(qx, qy)
                                    == idx as int {
                                    lemma_pixel_identity(m, ti, idx as int, qx, qy);
                                }
                            }
                        }
                    }
                } else {
                    proof {
                        assert forall|qx: int, qy: int|
                            0 <= qx < m.width && 0 <= qy < m.height implies !(m.tile_index(
                            qx, qy) == ti && m.inner_idx(qx, qy) == idx as int) by {
                            if m.tile_index(qx, qy) == ti && m.inner_idx(qx, qy) == idx as int {
                                lemma_pixel_identity(m, ti, idx as int, qx, qy);
                            }
                        }
                    }
                }
                idx = idx + 1;
            }
            proof {
                assert forall|qx: int, qy: int|
                    0 <= qx < m.width && 0 <= qy < m.height && m.tile_index(qx, qy) == ti
                    implies m.inner_idx(qx, qy) < 1024 by {
                    lemma_inner_range(m, qx, qy);
                }
            }
            t = t + 1;
        }
        let ghost all = results@;
        let ghost cache0 = self.last_squares;
        let mut rest = results;
        proof {
            assert(all.take(all.len() as int) =~= all);
        }
        while rest.len() > 0
            invariant
                rest@.len() <= all.len(),
                rest@ == all.take(rest@.len() as int),
                self.last_squares.wf(),
                self.width == m.width,
                self.height == m.height,
                self.max_iter == m.max_iter,
                self.center_x == m.center_x,
                self.center_y == m.center_y,
                self.zoom == m.zoom,
                forall|k2: Square|
                    #[trigger] self.last_squares.contains(k2) <==> (cache0.contains(k2)
                        || exists|j: int|
                        rest@.len() <= j < all.len() && (#[trigger] all[j]).0 == k2),
            decreases rest@.len(),
        {
            let ghost pre_len = rest@.len() as int;
            let pair = rest.pop().unwrap();
            proof {
                assert(all.take(pre_len)[pre_len - 1] == all[pre_len - 1]);
                assert(pair == all[pre_len - 1]);
                assert forall|ii: int| 0 <= ii < pre_len - 1 implies rest@[ii] == all.take(
                    pre_len - 1)[ii] by {
                    assert(rest@[ii] == all.take(pre_len)[ii]);
                }
                assert(rest@ =~= all.take(pre_len - 1));
            }
            self.last_squares.put(pair.0, pair.1);
            proof {
                assert forall|k2: Square| #[trigger] self.last_squares.contains(k2) implies (
                cache0.contains(k2) || exists|j: int|
                    rest@.len() <= j < all.len() && (#[trigger] all[j]).0 == k2) by {
                    if !cache0.contains(k2) {
                        if k2 == pair.0 {
                            assert((all[pre_len - 1]).0 == k2);
                        }
                    }
                }
                assert forall|k2: Square| (cache0.contains(k2) || exists|j: int|
                    rest@.len() <= j < all.len() && (#[trigger] all[j]).0 == k2)
                    implies #[trigger] self.last_squares.contains(k2) by {}
            }
        }
        proof {
            assert forall|k2: Square| #[trigger] self.cached(k2) <==> (m.cached(k2)
                || m.coverage().contains(k2)) by {
                assert(self.last_squares.contains(k2) <==> (cache0.contains(k2) || exists|j: int|
                    0 <= j < all.len() && (#[trigger] all[j]).0 == k2));
                if exists|j: int| 0 <= j < all.len() && (#[trigger] all[j]).0 == k2 {
                    let w = choose|j: int| 0 <= j < all.len() && (#[trigger] all[j]).0 == k2;
                    assert(m.coverage()[w] == k2);
                }
                if m.coverage().contains(k2) {
                    let w = choose|j: int| 0 <= j < m.coverage().len() && m.coverage()[j] == k2;
                    assert((all[w]).0 == k2);
                }
            }
            let w = m.width as int;
            let h = m.height as int;
            lemma_bytes_len(fb);
            assert forall|b: int| 0 <= b < fb.bytes().len() implies fb.bytes()[b]
                == m.rendered_image()[b] by {
                lemma_fundamental_div_mod(b, 3);
                vstd::arithmetic::div_mod::lemma_mod_bound(b, 3);
                let pidx = b / 3;
                assert(3 * w * h - 1 == (w * h - 1) * 3 + 2 && w * h == h * w)
                    by (nonlinear_arith);
                lemma_fundamental_div_mod_converse(3 * w * h - 1, 3, w * h - 1, 2);
                lemma_div_is_ordered(b, 3 * w * h - 1, 3);
                lemma_div_pos_is_pos(b, 3);
                lemma_rect_decompose(h, w, pidx);
                let px = pidx % w;
                let py = pidx / w;
                lemma_inner_range(m, px, py);
                lemma_pixel_bytes(fb, px, py);
            }
            assert(fb.bytes() =~= m.rendered_image());
        }
        fb
    }
}

/// Truncated rescaling by `SCALE / zoom` and back moves a grid coordinate by
/// at most one unit, for points within the evaluator's plane range.
proof fn lemma_scale_roundtrip(g: int, zoom: int)
    requires
        1 <= zoom <= SCALE as int,
        -4 * zoom <= g <= 4 * zoom,
    ensures
        g - 1 <= tdiv(tdiv(g * (SCALE as int), zoom) * zoom, SCALE as int) <= g + 1,
{
    let s = SCALE as int;
    if g >= 0 {
        lemma_tdiv_roundtrip_nonneg(g, zoom);
    } else {
        lemma_tdiv_roundtrip_nonneg(-g, zoom);
        assert(tdiv(g * s, zoom) == -tdiv((-g) * s, zoom)) by {
            assert(g * s == -((-g) * s)) by (nonlinear_arith);
            lemma_div_pos_is_pos((-g) * s, zoom);
        }
        assert(tdiv(tdiv(g * s, zoom) * zoom, s) == -tdiv(tdiv((-g) * s, zoom) * zoom, s)) by {
            assert(tdiv(g * s, zoom) * zoom == -(tdiv((-g) * s, zoom) * zoom))
                by (nonlinear_arith)
                requires
                    tdiv(g * s, zoom) == -tdiv((-g) * s, zoom);
            lemma_div_pos_is_pos(tdiv((-g) * s, zoom) * zoom, s);
            lemma_div_pos_is_pos((-g) * s, zoom);
            assert(tdiv((-g) * s, zoom) * zoom >= 0) by (nonlinear_arith)
                requires
                    tdiv((-g) * s, zoom) >= 0,
                    zoom >= 1;
        }
    }
}

/// Round trip of the viewport transform along one axis: taking a grid
/// coordinate to the fixed-point plane and back moves it by at most one
/// unit.  It holds whenever the zoom does not exceed the fixed-point scale
/// and the point lies within the evaluator's plane range; at `zoom` beyond
/// `SCALE` a pixel step is finer than the fixed-point resolution and the
/// bound is forfeit.
pub proof fn lemma_pixel_roundtrip(g: int, zoom: int)
    requires
        1 <= zoom <= SCALE as int,
        -4 * zoom <= g <= 4 * zoom,
    ensures
        g - 1 <= tdiv(plane_of(g, zoom) * zoom, SCALE as int) <= g + 1,
{
    let s = SCALE as int;
    crate::complex::lemma_mul_bound(g, s, 4 * zoom, s);
    assert((4 * zoom) * s == (4 * s) * zoom) by (nonlinear_arith);
    crate::complex::lemma_tdiv_bound(g * s, zoom, (4 * s) * zoom);
    lemma_div_by_multiple(4 * s, zoom);
    assert(plane_of(g, zoom) == tdiv(g * s, zoom));
    lemma_scale_roundtrip(g, zoom);
}

/// Decomposition of an index below `rows * cols` into a row and a column.
proof fn lemma_rect_decompose(rows: int, cols: int, k: int)
    requires
        1 <= rows,
        1 <= cols,
        0 <= k < rows * cols,
    ensures
        k == (k / cols) * cols + (k % cols),
        0 <= k % cols < cols,
        0 <= k / cols < rows,
{
    lemma_fundamental_div_mod(k, cols);
    vstd::arithmetic::div_mod::lemma_mod_bound(k, cols);
    lemma_div_pos_is_pos(k, cols);
    vstd::arithmetic::mul::lemma_mul_is_commutative(cols, k / cols);
    assert(k / cols < rows) by (nonlinear_arith)
        requires
            k == cols * (k / cols) + (k % cols),
            0 <= k % cols,
            k < rows * cols,
            0 <= k / cols,
            1 <= cols;
}

/// Every screen pixel's containing tile and in-tile index are in range.
proof fn lemma_inner_range(m: Mandelbrot, qx: int, qy: int)
    requires
        1 <= m.width,
        1 <= m.height,
        0 <= qx < m.width,
        0 <= qy < m.height,
    ensures
        0 <= m.inner_idx(qx, qy) < 1024,
        0 <= m.tile_i(qx) < m.nx(),
        0 <= m.tile_j(qy) < m.ny(),
        0 <= m.tile_index(qx, qy) < m.nx() * m.ny(),
{
    lemma_axis_cover(m.top_x(), m.width as int, m.top_x() + qx);
    lemma_axis_cover(m.top_y(), m.height as int, m.top_y() + qy);
    lemma_fundamental_div_mod(m.top_x() + qx - m.start_x(), 32);
    vstd::arithmetic::div_mod::lemma_mod_bound(m.top_x() + qx - m.start_x(), 32);
    lemma_fundamental_div_mod(m.top_y() + qy - m.start_y(), 32);
    vstd::arithmetic::div_mod::lemma_mod_bound(m.top_y() + qy - m.start_y(), 32);
    assert(m.tile_index(qx, qy) < m.nx() * m.ny()) by (nonlinear_arith)
        requires
            m.tile_index(qx, qy) == m.tile_i(qx) * m.ny() + m.tile_j(qy),
            0 <= m.tile_i(qx) <= m.nx() - 1,
            0 <= m.tile_j(qy) < m.ny(),
            1 <= m.ny(),
    ;
    assert(m.tile_index(qx, qy) >= 0) by (nonlinear_arith)
        requires
            m.tile_index(qx, qy) == m.tile_i(qx) * m.ny() + m.tile_j(qy),
            0 <= m.tile_i(qx),
            0 <= m.tile_j(qy),
            1 <= m.ny(),
    ;
}

/// A screen pixel classified into tile `t` at in-tile index `idx` sits at
/// the absolute grid coordinate the tile's pixel `idx` scatters to.
proof fn lemma_pixel_identity(m: Mandelbrot, t: int, idx: int, qx: int, qy: int)
    requires
        1 <= m.width,
        1 <= m.height,
        0 <= qx < m.width,
        0 <= qy < m.height,
        0 <= idx < 1024,
        0 <= t < m.nx() * m.ny(),
        m.tile_index(qx, qy) == t,
        m.inner_idx(qx, qy) == idx,
    ensures
        m.top_x() + qx == m.start_x() + 32 * (t / m.ny()) + idx % 32,
        m.top_y() + qy == m.start_y() + 32 * (t % m.ny()) + idx / 32,
{
    let nyi = m.ny();
    lemma_inner_range(m, qx, qy);
    assert(nyi >= 1);
    lemma_fundamental_div_mod_converse(t, nyi, m.tile_i(qx), m.tile_j(qy));
    lemma_fundamental_div_mod(m.top_x() + qx - m.start_x(), 32);
    vstd::arithmetic::div_mod::lemma_mod_bound(m.top_x() + qx - m.start_x(), 32);
    lemma_fundamental_div_mod(m.top_y() + qy - m.start_y(), 32);
    vstd::arithmetic::div_mod::lemma_mod_bound(m.top_y() + qy - m.start_y(), 32);
    let r = m.top_x() + qx - m.start_x() - 32 * m.tile_i(qx);
    let r2 = m.top_y() + qy - m.start_y() - 32 * m.tile_j(qy);
    lemma_fundamental_div_mod_converse(idx, 32, r2, r);
}

/// The converse: the pixel the tile's entry `idx` scatters to, when it is
/// on screen, is classified into exactly that tile and index.
proof fn lemma_pixel_classify(m: Mandelbrot, t: int, idx: int, px: int, py: int)
    requires
        1 <= m.width,
        1 <= m.height,
        0 <= px < m.width,
        0 <= py < m.height,
        0 <= idx < 1024,
        0 <= t < m.nx() * m.ny(),
        m.top_x() + px == m.start_x() + 32 * (t / m.ny()) + idx % 32,
        m.top_y() + py == m.start_y() + 32 * (t % m.ny()) + idx / 32,
    ensures
        m.tile_index(px, py) == t,
        m.inner_idx(px, py) == idx,
        m.tile_i(px) == t / m.ny(),
        m.tile_j(py) == t % m.ny(),
{
    let nyi = m.ny();
    lemma_axis_cover(m.top_x(), m.width as int, m.top_x() + px);
    lemma_rect_decompose(m.nx(), nyi, t);
    crate::square::lemma_idx_decompose(32, idx);
    lemma_fundamental_div_mod_converse(
        32 * (t / nyi) + idx % 32, 32, t / nyi, idx % 32);
    lemma_fundamental_div_mod_converse(
        32 * (t % nyi) + idx / 32, 32, t % nyi, idx / 32);
    assert(m.tile_i(px) == t / nyi);
    assert(m.tile_j(py) == t % nyi);
    assert((t / nyi) * nyi == nyi * (t / nyi)) by (nonlinear_arith);
    lemma_fundamental_div_mod(t, nyi);
}

/// The nonnegative half of the round-trip bound.
proof fn lemma_tdiv_roundtrip_nonneg(g: int, zoom: int)
    requires
        1 <= zoom <= SCALE as int,
        0 <= g,
    ensures
        g - 1 <= tdiv(tdiv(g * (SCALE as int), zoom) * zoom, SCALE as int) <= g,
{
    let s = SCALE as int;
    let gs = g * s;
    assert(gs >= 0) by (nonlinear_arith)
        requires
            gs == g * s,
            g >= 0,
            s >= 1;
    let t = gs / zoom;
    lemma_div_pos_is_pos(gs, zoom);
    lemma_fundamental_div_mod(gs, zoom);
    let r1 = gs % zoom;
    assert(t * zoom == gs - r1) by (nonlinear_arith)
        requires
            gs == zoom * t + r1;
    assert(tdiv(gs, zoom) == t);
    assert(t * zoom >= 0) by (nonlinear_arith)
        requires
            t >= 0,
            zoom >= 1;
    let u = (t * zoom) / s;
    assert(tdiv(t * zoom, s) == u);
    if r1 == 0 {
        assert(t * zoom == g * s);
        lemma_div_by_multiple(g, s);
        assert((g * s) / s == g);
    } else {
        assert(t * zoom == (g - 1) * s + (s - r1)) by (nonlinear_arith)
            requires
                t * zoom == g * s - r1;
        assert(0 <= s - r1 < s);
        lemma_fundamental_div_mod_converse(t * zoom, s, g - 1, s - r1);
        assert(u == g - 1);
    }
}

} // verus!
