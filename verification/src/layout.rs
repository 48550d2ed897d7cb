//! Pixel layout: where the tile grid sits inside the viewport.

use vstd::prelude::*;

verus! {

use vstd::arithmetic::div_mod::{lemma_fundamental_div_mod, lemma_mod_bound};
use vstd::arithmetic::mul::{lemma_mul_inequality, lemma_mul_is_commutative};

/// Pixel layout of the tile grid inside the viewport.
pub struct Layout {
    /// Size of a unit square, margin included.
    pub unit: u32,
    /// Margin around a tile inside its unit square: 7% of the unit.
    pub gap: u32,
    /// Bottom-left corner of the bottom-left tile.
    pub origin: (u32, u32),
    /// Size of the whole tile area, in pixels.
    pub size: (u32, u32),
    /// Number of tiles on each row.
    pub width: usize,
}

impl Layout {
    /// Center a `width` by `height` tile grid in a viewport of the given
    /// pixel size: the unit square is the largest that fits, and the margin
    /// is 7% of it, rounded down.
    pub fn compute(pixel_width: u32, pixel_height: u32, width: usize, height: usize) -> (l: Layout)
        requires
            0 < width <= u32::MAX,
            0 < height <= u32::MAX,
        ensures
            l.unit == (if pixel_width as int / width as int <= pixel_height as int / height as int {
                pixel_width as int / width as int
            } else {
                pixel_height as int / height as int
            }),
            l.gap == l.unit * 7 / 100,
            2 * l.gap <= l.unit,
            l.size.0 == width * l.unit,
            l.size.1 == height * l.unit,
            l.origin.0 == (pixel_width - l.size.0) / 2,
            l.origin.1 == (pixel_height - l.size.1) / 2,
            l.origin.0 + l.size.0 <= pixel_width,
            l.origin.1 + l.size.1 <= pixel_height,
            l.width == width,
    {
        let wu = width as u32;
        let hu = height as u32;
        let a = pixel_width / wu;
        let b = pixel_height / hu;
        let unit = if a <= b {
            a
        } else {
            b
        };
        proof {
            lemma_fundamental_div_mod(pixel_width as int, wu as int);
            lemma_mod_bound(pixel_width as int, wu as int);
            lemma_mul_inequality(unit as int, a as int, wu as int);
            lemma_mul_is_commutative(wu as int, a as int);
            lemma_mul_is_commutative(wu as int, unit as int);
            lemma_fundamental_div_mod(pixel_height as int, hu as int);
            lemma_mod_bound(pixel_height as int, hu as int);
            lemma_mul_inequality(unit as int, b as int, hu as int);
            lemma_mul_is_commutative(hu as int, b as int);
            lemma_mul_is_commutative(hu as int, unit as int);
            lemma_fundamental_div_mod(unit as int * 7, 100);
            lemma_mod_bound(unit as int * 7, 100);
        }
        let gap = ((unit as u64) * 7 / 100) as u32;
        let display_width = wu * unit;
        let display_height = hu * unit;
        let x0 = (pixel_width - display_width) / 2;
        let y0 = (pixel_height - display_height) / 2;
        Layout {
            unit,
            gap,
            origin: (x0, y0),
            size: (display_width, display_height),
            width,
        }
    }

    /// The pixel rectangle of the tile at grid coordinate `pos`: x, y,
    /// width, height, inset by the margin on every side.
    pub fn rect(&self, pos: (usize, usize)) -> (r: [u32; 4])
        requires
            pos.0 <= u32::MAX,
            pos.1 <= u32::MAX,
            self.origin.0 + pos.0 * self.unit + self.gap <= u32::MAX,
            self.origin.1 + pos.1 * self.unit + self.gap <= u32::MAX,
            2 * self.gap <= self.unit,
        ensures
            r[0] == self.origin.0 + pos.0 * self.unit + self.gap,
            r[1] == self.origin.1 + pos.1 * self.unit + self.gap,
            r[2] == self.unit - 2 * self.gap,
            r[3] == self.unit - 2 * self.gap,
    {
        [
            self.origin.0 + pos.0 as u32 * self.unit + self.gap,
            self.origin.1 + pos.1 as u32 * self.unit + self.gap,
            self.unit - 2 * self.gap,
            self.unit - 2 * self.gap,
        ]
    }
}

} // verus!
