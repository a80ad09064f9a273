//! The rasteriser.
//!
//! Every pixel of the raster is mapped onto the plane, classified by the
//! escape test, and turned into a grayscale intensity: 0 (black) for points
//! taken to be in the set, and `limit - i` for points that escape at step
//! index `i`, so that slow escapes near the boundary render bright.

use vstd::prelude::*;

use crate::escape::{escape_ints, escape_iterations, escape_spec};
use crate::mapping::{mapped_imag, mapped_real, pixel_to_point, PixelBounds};
use crate::plane::ComplexPoint;

verus! {

/// Intensity of the pixel at row-major index `k` of the raster: 0 when the
/// plane point never escapes within `limit` steps, `limit - i` when it
/// escapes at step index `i`.
pub open spec fn pixel_shade(
    bounds: PixelBounds,
    upper_left: ComplexPoint,
    lower_right: ComplexPoint,
    limit: int,
    k: int,
) -> int {
    let col = k % (bounds.width as int);
    let row = k / (bounds.width as int);
    match escape_ints(
        mapped_real(bounds, col, upper_left, lower_right),
        mapped_imag(bounds, row, upper_left, lower_right),
        limit,
    ) {
        None => 0,
        Some(i) => limit - i,
    }
}

/// The whole raster in row-major order: row 0 first, within a row column 0
/// first, one grayscale byte per pixel.
pub open spec fn render_spec(
    bounds: PixelBounds,
    upper_left: ComplexPoint,
    lower_right: ComplexPoint,
    limit: int,
) -> Seq<u8> {
    Seq::new(
        bounds.area() as nat,
        |k: int| pixel_shade(bounds, upper_left, lower_right, limit, k) as u8,
    )
}

/// Render the rectangle of the plane between `upper_left` and `lower_right`
/// into a fresh buffer of `width * height` grayscale bytes, classifying each
/// pixel with at most `limit` orbit steps.
pub fn render(
    bounds: PixelBounds,
    upper_left: ComplexPoint,
    lower_right: ComplexPoint,
    limit: usize,
) -> (pixels: Vec<u8>)
    requires
        bounds.valid(),
        bounds.area() <= usize::MAX,
        limit <= 255,
        upper_left.in_range(),
        lower_right.in_range(),
        upper_left.real <= lower_right.real,
        lower_right.imag <= upper_left.imag,
    ensures
        pixels@ == render_spec(bounds, upper_left, lower_right, limit as int),
        pixels@.len() == bounds.area(),
{
    let width = bounds.width;
    let height = bounds.height;
    let mut pixels: Vec<u8> = Vec::new();
    let mut row: usize = 0;
    while row < height
        invariant
            row <= height,
            bounds.width == width,
            bounds.height == height,
            bounds.valid(),
            bounds.area() <= usize::MAX,
            limit <= 255,
            upper_left.in_range(),
            lower_right.in_range(),
            upper_left.real <= lower_right.real,
            lower_right.imag <= upper_left.imag,
            pixels@.len() == row * width,
            forall|k: int|
                0 <= k < pixels@.len() ==> pixels@[k] == render_spec(
                    bounds,
                    upper_left,
                    lower_right,
                    limit as int,
                )[k],
        decreases height - row,
    {
        let mut col: usize = 0;
        proof {
            assert(row * width + width <= height * width && height * width
                == width * height) by (nonlinear_arith)
                requires
                    row < height,
            ;
        }
        while col < width
            invariant
                col <= width,
                row < height,
                bounds.width == width,
                bounds.height == height,
                bounds.valid(),
                bounds.area() <= usize::MAX,
                limit <= 255,
                upper_left.in_range(),
                lower_right.in_range(),
                upper_left.real <= lower_right.real,
                lower_right.imag <= upper_left.imag,
                row * width + width <= bounds.area(),
                pixels@.len() == row * width + col,
                forall|k: int|
                    0 <= k < pixels@.len() ==> pixels@[k] == render_spec(
                        bounds,
                        upper_left,
                        lower_right,
                        limit as int,
                    )[k],
            decreases width - col,
        {
            let point = pixel_to_point(bounds, (col, row), upper_left, lower_right);
            let shade: u8 = match escape_iterations(point, limit) {
                None => 0,
                Some(i) => (limit - i) as u8,
            };
            proof {
                let k = row * width + col;
                vstd::arithmetic::div_mod::lemma_fundamental_div_mod_converse(
                    k as int,
                    width as int,
                    row as int,
                    col as int,
                );
                assert(escape_spec(point, limit as int) == escape_ints(
                    point.real as int,
                    point.imag as int,
                    limit as int,
                ));
                assert(shade == pixel_shade(
                    bounds,
                    upper_left,
                    lower_right,
                    limit as int,
                    k as int,
                ) as u8);
            }
            pixels.push(shade);
            col = col + 1;
        }
        row = row + 1;
        proof {
            assert(pixels@.len() == row * width) by (nonlinear_arith)
                requires
                    pixels@.len() == (row - 1) * width + width,
            ;
        }
    }
    proof {
        assert(pixels@.len() == bounds.area()) by (nonlinear_arith)
            requires
                pixels@.len() == row * width,
                row == height,
                bounds.area() == width * height,
        ;
        assert(pixels@ =~= render_spec(bounds, upper_left, lower_right, limit as int));
    }
    pixels
}

/// Rendering is deterministic: two buffers rendered from identical inputs
/// are byte-identical.
pub proof fn lemma_render_deterministic(
    first: Seq<u8>,
    second: Seq<u8>,
    bounds: PixelBounds,
    upper_left: ComplexPoint,
    lower_right: ComplexPoint,
    limit: int,
)
    requires
        first == render_spec(bounds, upper_left, lower_right, limit),
        second == render_spec(bounds, upper_left, lower_right, limit),
    ensures
        first == second,
{
}

} // verus!
