//! Mapping raster pixels onto the complex plane.
//!
//! A raster of `width * height` pixels covers the plane rectangle between
//! `upper_left` and `lower_right`.  Column 0 maps exactly onto the left edge
//! and column `width` exactly onto the right edge; rows map the same way with
//! the imaginary axis decreasing downward.

use vstd::prelude::*;

use crate::plane::ComplexPoint;

verus! {

/// Width and height of the output raster, in pixels.
#[derive(Clone, Copy, PartialEq, Eq, Structural, Debug)]
pub struct PixelBounds {
    pub width: usize,
    pub height: usize,
}

impl PixelBounds {
    /// A raster has at least one pixel in each direction.
    pub open spec fn valid(self) -> bool {
        0 < self.width && 0 < self.height
    }

    /// Number of pixels in the raster.
    pub open spec fn area(self) -> int {
        self.width * self.height
    }
}

/// Real coordinate of pixel column `col`: a linear interpolation from the
/// left edge at column 0 to the right edge at column `width`.
pub open spec fn mapped_real(
    bounds: PixelBounds,
    col: int,
    upper_left: ComplexPoint,
    lower_right: ComplexPoint,
) -> int {
    upper_left.real + (col * (lower_right.real - upper_left.real)) / (
    bounds.width as int)
}

/// Imaginary coordinate of pixel row `row`: a linear interpolation from the
/// top edge at row 0 to the bottom edge at row `height`.
pub open spec fn mapped_imag(
    bounds: PixelBounds,
    row: int,
    upper_left: ComplexPoint,
    lower_right: ComplexPoint,
) -> int {
    upper_left.imag - (row * (upper_left.imag - lower_right.imag)) / (
    bounds.height as int)
}

/// Convert the raster position `pixel` (column, row) into the plane point it
/// stands for.  The result stays inside the rectangle's coordinate box.
pub fn pixel_to_point(
    bounds: PixelBounds,
    pixel: (usize, usize),
    upper_left: ComplexPoint,
    lower_right: ComplexPoint,
) -> (r: ComplexPoint)
    requires
        bounds.valid(),
        pixel.0 <= bounds.width,
        pixel.1 <= bounds.height,
        upper_left.in_range(),
        lower_right.in_range(),
        upper_left.real <= lower_right.real,
        lower_right.imag <= upper_left.imag,
    ensures
        r.real == mapped_real(bounds, pixel.0 as int, upper_left, lower_right),
        r.imag == mapped_imag(bounds, pixel.1 as int, upper_left, lower_right),
        upper_left.real <= r.real <= lower_right.real,
        lower_right.imag <= r.imag <= upper_left.imag,
        r.in_range(),
{
    let col: u128 = pixel.0 as u128;
    let row: u128 = pixel.1 as u128;
    let w: u128 = bounds.width as u128;
    let h: u128 = bounds.height as u128;
    let plane_w: u128 = (lower_right.real as i128 - upper_left.real as i128) as u128;
    let plane_h: u128 = (upper_left.imag as i128 - lower_right.imag as i128) as u128;
    proof {
        lemma_interp_bounds(col as int, w as int, plane_w as int);
        lemma_interp_bounds(row as int, h as int, plane_h as int);
    }
    let re_off: u128 = (col * plane_w) / w;
    let im_off: u128 = (row * plane_h) / h;
    let re_val: i64 = (upper_left.real as i128 + re_off as i128) as i64;
    let im_val: i64 = (upper_left.imag as i128 - im_off as i128) as i64;
    ComplexPoint { real: re_val, imag: im_val }
}

/// For `0 <= col <= w` and a span of at most `span`, the interpolation
/// product fits in 128 bits and its quotient lies between 0 and `span`.
proof fn lemma_interp_bounds(col: int, w: int, span: int)
    requires
        0 < w,
        0 <= col <= w,
        0 <= span < 0x1_0000_0000_0000_0000,
        w < 0x1_0000_0000_0000_0000,
    ensures
        0 <= col * span <= u128::MAX,
        0 <= (col * span) / w <= span,
{
    assert(0 <= col * span <= w * span && w * span <= u128::MAX)
        by (nonlinear_arith)
        requires
            0 < w,
            0 <= col <= w,
            0 <= span < 0x1_0000_0000_0000_0000,
            w < 0x1_0000_0000_0000_0000,
    ;
    vstd::arithmetic::div_mod::lemma_div_pos_is_pos(col * span, w);
    vstd::arithmetic::div_mod::lemma_div_is_ordered(col * span, w * span, w);
    vstd::arithmetic::div_mod::lemma_div_multiples_vanish(span, w);
}

/// Corner exactness of the raster-to-plane mapping: pixel `(0, 0)` lands
/// exactly on the upper-left corner, and pixel `(width, height)` exactly on
/// the lower-right corner.
pub proof fn lemma_corner_mapping(
    bounds: PixelBounds,
    upper_left: ComplexPoint,
    lower_right: ComplexPoint,
)
    requires
        bounds.valid(),
    ensures
        mapped_real(bounds, 0, upper_left, lower_right) == upper_left.real,
        mapped_imag(bounds, 0, upper_left, lower_right) == upper_left.imag,
        mapped_real(bounds, bounds.width as int, upper_left, lower_right)
            == lower_right.real,
        mapped_imag(bounds, bounds.height as int, upper_left, lower_right)
            == lower_right.imag,
{
    let w = bounds.width as int;
    let h = bounds.height as int;
    let pw = lower_right.real - upper_left.real;
    let ph = upper_left.imag - lower_right.imag;
    assert(0int * pw == 0) by (nonlinear_arith);
    assert(0int * ph == 0) by (nonlinear_arith);
    vstd::arithmetic::div_mod::lemma_div_pos_is_pos(0, w);
    vstd::arithmetic::div_mod::lemma_div_nonincreasing(0, w);
    vstd::arithmetic::div_mod::lemma_div_pos_is_pos(0, h);
    vstd::arithmetic::div_mod::lemma_div_nonincreasing(0, h);
    assert(w * pw == pw * w) by (nonlinear_arith);
    assert(h * ph == ph * h) by (nonlinear_arith);
    vstd::arithmetic::div_mod::lemma_div_multiples_vanish(pw, w);
    vstd::arithmetic::div_mod::lemma_div_multiples_vanish(ph, h);
}

} // verus!
