//! The traversal mapper: the coordinate transform that lets one 1-D
//! compaction algorithm serve all four directions.
//!
//! For a direction, traversal coordinates `(x, y)` range over a rectangle of
//! `traversal_width` columns and `traversal_height` rows. `y = 0` is the cell
//! a sliding tile ends at when nothing blocks it, and increasing `y` walks
//! backward along the direction of travel. `cell_index` maps traversal
//! coordinates to the grid's linear (row-major) index.

use vstd::prelude::*;

verus! {

use vstd::arithmetic::div_mod::lemma_fundamental_div_mod_converse;
use vstd::arithmetic::mul::{lemma_mul_inequality, lemma_mul_is_commutative};

use crate::game::Direction;

/// Number of traversal columns: the axis tiles do not move along.
pub open spec fn traversal_width(dir: Direction, w: int, h: int) -> int {
    match dir {
        Direction::S | Direction::N => w,
        Direction::E | Direction::W => h,
    }
}

/// Number of traversal rows: the axis compaction proceeds along.
pub open spec fn traversal_height(dir: Direction, w: int, h: int) -> int {
    match dir {
        Direction::S | Direction::N => h,
        Direction::E | Direction::W => w,
    }
}

/// Linear index of traversal coordinate `(x, y)` on a `w` by `h` grid.
pub open spec fn cell_index(dir: Direction, w: int, h: int, x: int, y: int) -> int {
    match dir {
        Direction::E => w - 1 - y + x * w,
        Direction::N => x + (h - 1 - y) * w,
        Direction::W => y + x * w,
        Direction::S => x + y * w,
    }
}

/// The traversal column a linear index belongs to: inverse of `cell_index`.
pub open spec fn column_of(dir: Direction, w: int, h: int, i: int) -> int {
    match dir {
        Direction::E => i / w,
        Direction::N => i % w,
        Direction::W => i / w,
        Direction::S => i % w,
    }
}

/// The traversal row a linear index belongs to: inverse of `cell_index`.
pub open spec fn row_of(dir: Direction, w: int, h: int, i: int) -> int {
    match dir {
        Direction::E => w - 1 - i % w,
        Direction::N => h - 1 - i / w,
        Direction::W => i % w,
        Direction::S => i / w,
    }
}

/// `cell_index` lands inside the grid and is undone by `column_of`/`row_of`;
/// in particular it is injective on the traversal rectangle.
pub proof fn lemma_cell_index_inverse(dir: Direction, w: int, h: int, x: int, y: int)
    requires
        0 <= x < traversal_width(dir, w, h),
        0 <= y < traversal_height(dir, w, h),
    ensures
        0 <= cell_index(dir, w, h, x, y) < w * h,
        column_of(dir, w, h, cell_index(dir, w, h, x, y)) == x,
        row_of(dir, w, h, cell_index(dir, w, h, x, y)) == y,
{
    let i = cell_index(dir, w, h, x, y);
    lemma_mul_is_commutative(w, h);
    match dir {
        Direction::E => {
            lemma_div_mod_split(i, w, x, w - 1 - y);
            lemma_mul_inequality(x + 1, h, w);
        },
        Direction::N => {
            lemma_div_mod_split(i, w, h - 1 - y, x);
            lemma_mul_inequality(h - y, h, w);
        },
        Direction::W => {
            lemma_div_mod_split(i, w, x, y);
            lemma_mul_inequality(x + 1, h, w);
        },
        Direction::S => {
            lemma_div_mod_split(i, w, y, x);
            lemma_mul_inequality(y + 1, h, w);
        },
    }
}

/// Every linear grid index lies on exactly one traversal coordinate:
/// `column_of` and `row_of` are undone by `cell_index`.
pub proof fn lemma_linear_index_inverse(dir: Direction, w: int, h: int, i: int)
    requires
        0 < w,
        0 < h,
        0 <= i < w * h,
    ensures
        0 <= column_of(dir, w, h, i) < traversal_width(dir, w, h),
        0 <= row_of(dir, w, h, i) < traversal_height(dir, w, h),
        cell_index(dir, w, h, column_of(dir, w, h, i), row_of(dir, w, h, i)) == i,
{
    vstd::arithmetic::div_mod::lemma_fundamental_div_mod(i, w);
    vstd::arithmetic::div_mod::lemma_mod_bound(i, w);
    vstd::arithmetic::div_mod::lemma_div_pos_is_pos(i, w);
    lemma_mul_is_commutative(w, i / w);
    assert(i / w < h) by {
        if i / w >= h {
            lemma_mul_inequality(h, i / w, w);
            lemma_mul_is_commutative(w, h);
            assert(i >= (i / w) * w);
        }
    }
}

/// For `i == q * w + r` with `r` in range, division recovers `q` and `r`.
pub(crate) proof fn lemma_div_mod_split(i: int, w: int, q: int, r: int)
    requires
        0 <= r < w,
        0 <= q,
        i == q * w + r,
    ensures
        i / w == q,
        i % w == r,
        i >= 0,
        i + 1 <= (q + 1) * w,
{
    lemma_fundamental_div_mod_converse(i, w, q, r);
    assert((q + 1) * w == q * w + w) by (nonlinear_arith);
    assert(q * w >= 0) by (nonlinear_arith)
        requires
            q >= 0,
            w > 0,
    ;
}

impl Direction {
    /// Size of the traversal rectangle on a `width` by `height` grid.
    pub fn traversal_dims(self, width: usize, height: usize) -> (d: (usize, usize))
        ensures
            d.0 == traversal_width(self, width as int, height as int),
            d.1 == traversal_height(self, width as int, height as int),
    {
        match self {
            Direction::S | Direction::N => (width, height),
            Direction::E | Direction::W => (height, width),
        }
    }

    /// Linear index of traversal coordinate `(x, y)`: the executable form of
    /// `cell_index`.
    pub fn index_of(self, width: usize, height: usize, x: usize, y: usize) -> (i: usize)
        requires
            x < traversal_width(self, width as int, height as int),
            y < traversal_height(self, width as int, height as int),
            width * height <= usize::MAX,
        ensures
            i == cell_index(self, width as int, height as int, x as int, y as int),
            i < width * height,
    {
        proof {
            lemma_cell_index_inverse(self, width as int, height as int, x as int, y as int);
        }
        match self {
            Direction::E => width - 1 - y + x * width,
            Direction::N => x + (height - 1 - y) * width,
            Direction::W => y + x * width,
            Direction::S => x + y * width,
        }
    }
}

} // verus!
