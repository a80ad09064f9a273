use mandelbrot::escape::escape_iterations;
use mandelbrot::mapping::{pixel_to_point, PixelBounds};
use mandelbrot::plane::{ComplexPoint, COORD_LIMIT, SCALE};
use mandelbrot::render::render;

#[test]
fn origin_never_escapes() {
    let origin = ComplexPoint { real: 0, imag: 0 };
    assert_eq!(escape_iterations(origin, 255), None);
    assert_eq!(escape_iterations(origin, 1), None);
}

#[test]
fn zero_limit_never_escapes() {
    let far = ComplexPoint {
        real: 3 * SCALE,
        imag: 0,
    };
    assert_eq!(escape_iterations(far, 0), None);
    let origin = ComplexPoint { real: 0, imag: 0 };
    assert_eq!(escape_iterations(origin, 0), None);
}

#[test]
fn far_point_escapes_at_one() {
    let far = ComplexPoint {
        real: 3 * SCALE,
        imag: 0,
    };
    assert_eq!(escape_iterations(far, 255), Some(1));
    assert_eq!(escape_iterations(far, 2), Some(1));
    // With a budget of one step only the initial z = 0 is tested.
    assert_eq!(escape_iterations(far, 1), None);
    let barely_out = ComplexPoint {
        real: 2 * SCALE + 1,
        imag: 0,
    };
    assert_eq!(escape_iterations(barely_out, 255), Some(1));
}

#[test]
fn boundary_points_stay_inside() {
    // c = -1 cycles between -1 and 0; c = -2 reaches 2 and stays.
    let minus_one = ComplexPoint {
        real: -SCALE,
        imag: 0,
    };
    assert_eq!(escape_iterations(minus_one, 255), None);
    let minus_two = ComplexPoint {
        real: -2 * SCALE,
        imag: 0,
    };
    assert_eq!(escape_iterations(minus_two, 255), None);
}

#[test]
fn extreme_coordinates_are_accepted() {
    let far = ComplexPoint {
        real: COORD_LIMIT,
        imag: -COORD_LIMIT,
    };
    assert_eq!(escape_iterations(far, 255), Some(1));
}

#[test]
fn corners_map_exactly() {
    let bounds = PixelBounds {
        width: 100,
        height: 200,
    };
    let upper_left = ComplexPoint {
        real: -SCALE,
        imag: SCALE,
    };
    let lower_right = ComplexPoint {
        real: SCALE,
        imag: -SCALE,
    };
    assert_eq!(
        pixel_to_point(bounds, (0, 0), upper_left, lower_right),
        upper_left
    );
    assert_eq!(
        pixel_to_point(bounds, (100, 200), upper_left, lower_right),
        lower_right
    );
    let center = pixel_to_point(bounds, (50, 100), upper_left, lower_right);
    assert_eq!(center, ComplexPoint { real: 0, imag: 0 });
}

#[test]
fn interior_mapping_truncates_toward_zero() {
    let bounds = PixelBounds {
        width: 3,
        height: 3,
    };
    let upper_left = ComplexPoint { real: 0, imag: 0 };
    let lower_right = ComplexPoint {
        real: SCALE,
        imag: 0,
    };
    let p = pixel_to_point(bounds, (1, 0), upper_left, lower_right);
    assert_eq!(p.real, 333_333);
    assert_eq!(p.imag, 0);
}

#[test]
fn single_pixel_degenerate_rectangle_is_black() {
    let bounds = PixelBounds {
        width: 1,
        height: 1,
    };
    let origin = ComplexPoint { real: 0, imag: 0 };
    let pixels = render(bounds, origin, origin, 255);
    assert_eq!(pixels, vec![0u8]);
}

#[test]
fn hundred_by_hundred_scenario() {
    let bounds = PixelBounds {
        width: 100,
        height: 100,
    };
    let upper_left = ComplexPoint {
        real: -SCALE,
        imag: SCALE,
    };
    let lower_right = ComplexPoint {
        real: SCALE,
        imag: -SCALE,
    };
    let pixels = render(bounds, upper_left, lower_right, 255);
    assert_eq!(pixels.len(), 100 * 100);
    // The center pixel maps to the origin, which never escapes.
    assert_eq!(pixels[50 * 100 + 50], 0);
    // The upper-left corner maps to -1+i, whose orbit leaves the circle of
    // radius 2 at step index 3, so it renders 255 - 3.
    assert_eq!(pixels[0], 252);
}

#[test]
fn rendering_is_deterministic() {
    let bounds = PixelBounds {
        width: 64,
        height: 48,
    };
    let upper_left = ComplexPoint {
        real: -1_200_000,
        imag: 350_000,
    };
    let lower_right = ComplexPoint {
        real: -1_000_000,
        imag: 200_000,
    };
    let first = render(bounds, upper_left, lower_right, 255);
    let second = render(bounds, upper_left, lower_right, 255);
    assert_eq!(first, second);
}
