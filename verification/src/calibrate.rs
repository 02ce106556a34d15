//! Calibration of a tile's mask against the mask of the whole image.
//!
//! The model sees each tile without its surroundings, so the level of a tile's
//! mask may drift from that of the whole image. The drift is measured at the
//! corners of a grid of blocks, interpolated between the corners and taken away.
//!
//! Interpolated values are fractions whose denominator is the square of the block
//! size. They are kept as whole numbers scaled by that square, which is exact for
//! every block size; with a block size that is a power of two of at most 128, single
//! precision arithmetic on the fractions themselves is exact too.

use vstd::prelude::*;
use crate::arith::{lemma_offset_bound, lemma_offset_join, lemma_offset_split};
use crate::raster::GrayImage;

verus! {

/// Block sizes for which the interpolation is exact in single precision.
pub open spec fn exact_block_size(b: int) -> bool {
    b == 1 || b == 2 || b == 4 || b == 8 || b == 16 || b == 32 || b == 64 || b == 128
}

/// The coordinate of grid line `c` on an axis of `n` pixels: lines are `b` pixels
/// apart, and the last one is moved to the last pixel.
pub open spec fn grid_line(c: int, b: int, n: int) -> int {
    if c * b < n - 1 {
        c * b
    } else {
        n - 1
    }
}

/// The level in column `x` and row `y` of a mask whose rows are `stride` bytes long.
pub open spec fn level_at(mask: Seq<u8>, stride: int, x: int, y: int) -> u8 {
    mask[y * stride + x]
}

/// How far the mask of the whole image lies above the tile's mask at the crossing
/// of grid column `c` and grid row `r`.
pub open spec fn corner_drift(
    tile: Seq<u8>,
    w: int,
    h: int,
    global: Seq<u8>,
    gw: int,
    b: int,
    c: int,
    r: int,
) -> int {
    let x = grid_line(c, b, w);
    let y = grid_line(r, b, h);
    level_at(global, gw, x, y) - level_at(tile, w, x, y)
}

/// Bilinear interpolation between four corner values at the position `fx / b` of
/// the way to the right and `fy / b` of the way down, scaled by `b * b`.
pub open spec fn bilinear_scaled(
    a00: int,
    a10: int,
    a01: int,
    a11: int,
    fx: int,
    fy: int,
    b: int,
) -> int {
    a00 * ((b - fx) * (b - fy)) + a10 * (fx * (b - fy)) + a01 * ((b - fx) * fy) + a11 * (fx * fy)
}

/// The drift at pixel (`x`, `y`), scaled by `b * b`.
pub open spec fn drift_scaled(
    tile: Seq<u8>,
    w: int,
    h: int,
    global: Seq<u8>,
    gw: int,
    b: int,
    x: int,
    y: int,
) -> int {
    let c = x / b;
    let r = y / b;
    bilinear_scaled(
        corner_drift(tile, w, h, global, gw, b, c, r),
        corner_drift(tile, w, h, global, gw, b, c + 1, r),
        corner_drift(tile, w, h, global, gw, b, c, r + 1),
        corner_drift(tile, w, h, global, gw, b, c + 1, r + 1),
        x % b,
        y % b,
        b,
    )
}

/// A level plus a drift that is scaled by `scale`, limited to the range of a level
/// and rounded down.
pub open spec fn shifted_level(level: int, drift: int, scale: int) -> int {
    let sum = level * scale + drift;
    if sum < 0 {
        0
    } else if sum > 255 * scale {
        255
    } else {
        sum / scale
    }
}

/// The calibrated mask of a tile of `w` by `h` pixels; rows of `global` are `gw`
/// bytes long and start at the same pixels as those of the tile.
pub open spec fn calibrated(
    tile: Seq<u8>,
    w: int,
    h: int,
    global: Seq<u8>,
    gw: int,
    b: int,
) -> Seq<u8> {
    Seq::new(
        (w * h) as nat,
        |i: int|
            shifted_level(
                tile[i] as int,
                drift_scaled(tile, w, h, global, gw, b, i % w, i / w),
                b * b,
            ) as u8,
    )
}

/// The weights of the four corners sum to the scale, and none is negative.
proof fn lemma_corner_weights(fx: int, fy: int, b: int)
    by (nonlinear_arith)
    requires
        0 <= fx <= b,
        0 <= fy <= b,
    ensures
        0 <= (b - fx) * (b - fy),
        0 <= fx * (b - fy),
        0 <= (b - fx) * fy,
        0 <= fx * fy,
        (b - fx) * (b - fy) + fx * (b - fy) + (b - fx) * fy + fx * fy == b * b,
{
}

/// An interpolated value lies between bounds that hold of all four corners. In particular
/// four equal corners give that value everywhere.
pub proof fn law_interpolation_lies_between_the_corners(
    a00: int,
    a10: int,
    a01: int,
    a11: int,
    fx: int,
    fy: int,
    b: int,
    low: int,
    high: int,
)
    requires
        0 <= fx <= b,
        0 <= fy <= b,
        low <= a00 <= high,
        low <= a10 <= high,
        low <= a01 <= high,
        low <= a11 <= high,
    ensures
        low * (b * b) <= bilinear_scaled(a00, a10, a01, a11, fx, fy, b) <= high * (b * b),
{
    lemma_corner_weights(fx, fy, b);
    let w00 = (b - fx) * (b - fy);
    let w10 = fx * (b - fy);
    let w01 = (b - fx) * fy;
    let w11 = fx * fy;
    assert(low * w00 <= a00 * w00 <= high * w00 && low * w10 <= a10 * w10 <= high * w10 && low * w01
        <= a01 * w01 <= high * w01 && low * w11 <= a11 * w11 <= high * w11) by (nonlinear_arith)
        requires
            0 <= w00,
            0 <= w10,
            0 <= w01,
            0 <= w11,
            low <= a00 <= high,
            low <= a10 <= high,
            low <= a01 <= high,
            low <= a11 <= high,
    ;
    assert(low * w00 + low * w10 + low * w01 + low * w11 == low * (w00 + w10 + w01 + w11))
        by (nonlinear_arith);
    assert(high * w00 + high * w10 + high * w01 + high * w11 == high * (w00 + w10 + w01 + w11))
        by (nonlinear_arith);
}

/// Interpolation passes through the four corner values.
pub proof fn law_interpolation_meets_the_corners(a00: int, a10: int, a01: int, a11: int, b: int)
    ensures
        bilinear_scaled(a00, a10, a01, a11, 0, 0, b) == a00 * (b * b),
        bilinear_scaled(a00, a10, a01, a11, b, 0, b) == a10 * (b * b),
        bilinear_scaled(a00, a10, a01, a11, 0, b, b) == a01 * (b * b),
        bilinear_scaled(a00, a10, a01, a11, b, b, b) == a11 * (b * b),
{
    assert(0 * b == 0 && b * 0 == 0);
    assert(a00 * 0 == 0 && a10 * 0 == 0 && a01 * 0 == 0 && a11 * 0 == 0);
}

/// Interpolates between four corner values; the result is scaled by `b * b`.
pub fn bilinear(a00: i32, a10: i32, a01: i32, a11: i32, fx: u32, fy: u32, b: u32) -> (sum: i64)
    requires
        -255 <= a00 <= 255,
        -255 <= a10 <= 255,
        -255 <= a01 <= 255,
        -255 <= a11 <= 255,
        fx <= b,
        fy <= b,
        0 < b <= 128,
    ensures
        sum == bilinear_scaled(
            a00 as int,
            a10 as int,
            a01 as int,
            a11 as int,
            fx as int,
            fy as int,
            b as int,
        ),
        -255 * (b * b) <= sum <= 255 * (b * b),
{
    proof {
        lemma_corner_weights(fx as int, fy as int, b as int);
        law_interpolation_lies_between_the_corners(
            a00 as int,
            a10 as int,
            a01 as int,
            a11 as int,
            fx as int,
            fy as int,
            b as int,
            -255,
            255,
        );
        assert(b * b <= 16384) by (nonlinear_arith)
            requires
                b <= 128,
        ;
    }
    let right: i64 = fx as i64;
    let left: i64 = b as i64 - right;
    let down: i64 = fy as i64;
    let up: i64 = b as i64 - down;
    let w00: i64 = left * up;
    let w10: i64 = right * up;
    let w01: i64 = left * down;
    let w11: i64 = right * down;
    proof {
        lemma_term_bound(a00 as int, w00 as int);
        lemma_term_bound(a10 as int, w10 as int);
        lemma_term_bound(a01 as int, w01 as int);
        lemma_term_bound(a11 as int, w11 as int);
    }
    a00 as i64 * w00 + a10 as i64 * w10 + a01 as i64 * w01 + a11 as i64 * w11
}

proof fn lemma_term_bound(a: int, weight: int)
    by (nonlinear_arith)
    requires
        -255 <= a <= 255,
        0 <= weight <= 16384,
    ensures
        -255 * 16384 <= a * weight <= 255 * 16384,
{
}

/// The coordinate of grid line `c`.
fn grid_coordinate(c: u32, b: u32, n: u32) -> (x: u32)
    requires
        0 < n,
        c * b <= u32::MAX,
    ensures
        x == grid_line(c as int, b as int, n as int),
        x < n,
{
    let at: u32 = c * b;
    if at < n - 1 {
        at
    } else {
        n - 1
    }
}

/// The drift at the crossing of two grid lines.
fn drift_at(tile: &GrayImage, global: &GrayImage, b: u32, c: u32, r: u32) -> (drift: i32)
    requires
        tile.wf(),
        global.wf(),
        0 < tile.width <= global.width,
        0 < tile.height <= global.height,
        0 < b,
        c * b <= u32::MAX,
        r * b <= u32::MAX,
    ensures
        drift == corner_drift(
            tile.data@,
            tile.width as int,
            tile.height as int,
            global.data@,
            global.width as int,
            b as int,
            c as int,
            r as int,
        ),
        -255 <= drift <= 255,
{
    proof {
        assert(0 <= c * b && 0 <= r * b) by (nonlinear_arith)
            requires
                0 < b,
                0 <= c,
                0 <= r,
        ;
    }
    let x: u32 = grid_coordinate(c, b, tile.width);
    let y: u32 = grid_coordinate(r, b, tile.height);
    global.get(x, y) as i32 - tile.get(x, y) as i32
}

/// Shifts the levels of a tile's mask by the drift between it and the mask of the
/// whole image.
///
/// At the corners of the blocks the result has the level of `global`; between them
/// the drift is interpolated. Levels are limited to the range of a byte and rounded
/// down.
pub fn calibrate_to_global(tile: &GrayImage, global: &GrayImage, block_size: u32) -> (result:
    GrayImage)
    requires
        tile.wf(),
        global.wf(),
        0 < tile.width <= global.width,
        0 < tile.height <= global.height,
        exact_block_size(block_size as int),
        tile.width + block_size - 1 <= u32::MAX,
        tile.height + block_size - 1 <= u32::MAX,
    ensures
        result.wf(),
        result.width == tile.width,
        result.height == tile.height,
        result.data@ == calibrated(
            tile.data@,
            tile.width as int,
            tile.height as int,
            global.data@,
            global.width as int,
            block_size as int,
        ),
{
    let b: u32 = block_size;
    let w: u32 = tile.width;
    let h: u32 = tile.height;
    let scale: i64 = b as i64 * b as i64;
    let total: usize = tile.data.len();
    let wide: usize = w as usize;
    let mut data: Vec<u8> = Vec::new();
    let mut i: usize = 0;
    while i < total
        invariant
            tile.wf(),
            global.wf(),
            b == block_size,
            w == tile.width,
            h == tile.height,
            wide == w,
            0 < w <= global.width,
            0 < h <= global.height,
            exact_block_size(b as int),
            w + b - 1 <= u32::MAX,
            h + b - 1 <= u32::MAX,
            scale == b * b,
            1 <= scale <= 16384,
            total == w * h,
            0 <= i <= total,
            data@.len() == i,
            forall|k: int|
                0 <= k < i ==> data@[k] == #[trigger] calibrated(
                    tile.data@,
                    w as int,
                    h as int,
                    global.data@,
                    global.width as int,
                    b as int,
                )[k],
        decreases total - i,
    {
        proof {
            lemma_offset_split(i as int, w as int, h as int);
        }
        let x: u32 = (i % wide) as u32;
        let y: u32 = (i / wide) as u32;
        let c: u32 = x / b;
        let r: u32 = y / b;
        proof {
            lemma_next_line_fits(x as int, b as int);
            lemma_next_line_fits(y as int, b as int);
        }
        let drift: i64 = bilinear(
            drift_at(tile, global, b, c, r),
            drift_at(tile, global, b, c + 1, r),
            drift_at(tile, global, b, c, r + 1),
            drift_at(tile, global, b, c + 1, r + 1),
            x % b,
            y % b,
            b,
        );
        let level: u8 = tile.data[i];
        proof {
            assert(0 <= level * scale <= 255 * 16384) by (nonlinear_arith)
                requires
                    0 <= level <= 255,
                    0 <= scale <= 16384,
            ;
        }
        let sum: i64 = level as i64 * scale + drift;
        let shifted: u8 = if sum < 0 {
            0
        } else if sum > 255 * scale {
            255
        } else {
            proof {
                lemma_quotient_is_level(sum as int, scale as int);
            }
            (sum / scale) as u8
        };
        data.push(shifted);
        i = i + 1;
    }
    GrayImage { width: w, height: h, data }
}

proof fn lemma_next_line_fits(x: int, b: int)
    requires
        0 <= x,
        0 < b,
    ensures
        0 <= (x / b) * b <= x,
        (x / b + 1) * b <= x + b,
        0 <= x % b < b,
        0 <= x / b <= x,
{
    vstd::arithmetic::div_mod::lemma_fundamental_div_mod(x, b);
    vstd::arithmetic::div_mod::lemma_mod_bound(x, b);
    vstd::arithmetic::div_mod::lemma_div_pos_is_pos(x, b);
    assert(b * (x / b) == (x / b) * b && (x / b + 1) * b == (x / b) * b + b && 0 <= (x / b) * b
        && x / b <= (x / b) * b) by (nonlinear_arith)
        requires
            0 <= x / b,
            0 < b,
    ;
}

proof fn lemma_quotient_is_level(sum: int, scale: int)
    by (nonlinear_arith)
    requires
        0 <= sum <= 255 * scale,
        0 < scale,
    ensures
        0 <= sum / scale <= 255,
{
}

/// A calibrated mask meets the mask of the whole image at every block corner.
pub proof fn law_calibrated_meets_global_at_corners(
    tile: Seq<u8>,
    w: int,
    h: int,
    global: Seq<u8>,
    gw: int,
    b: int,
    x: int,
    y: int,
)
    requires
        0 <= x < w,
        0 <= y < h,
        0 < b,
        x % b == 0,
        y % b == 0,
    ensures
        calibrated(tile, w, h, global, gw, b)[y * w + x] == global[y * gw + x],
{
    lemma_offset_bound(x, y, w, h);
    lemma_offset_join(x, y, w);
    vstd::arithmetic::div_mod::lemma_fundamental_div_mod(x, b);
    vstd::arithmetic::div_mod::lemma_fundamental_div_mod(y, b);
    assert((x / b) * b == b * (x / b) && (y / b) * b == b * (y / b)) by (nonlinear_arith);
    let t = tile[y * w + x] as int;
    let g = global[y * gw + x] as int;
    assert(corner_drift(tile, w, h, global, gw, b, x / b, y / b) == g - t);
    let a10 = corner_drift(tile, w, h, global, gw, b, x / b + 1, y / b);
    let a01 = corner_drift(tile, w, h, global, gw, b, x / b, y / b + 1);
    let a11 = corner_drift(tile, w, h, global, gw, b, x / b + 1, y / b + 1);
    law_interpolation_meets_the_corners(g - t, a10, a01, a11, b);
    assert(0 < b * b) by (nonlinear_arith)
        requires
            0 < b,
    ;
    lemma_shift_by_whole_level(t, g - t, b * b);
}

/// Where the mask of the whole image differs from the tile's mask by the same
/// amount everywhere, calibration restores the mask of the whole image. In
/// particular a tile that agrees with the whole image is left as it is.
pub proof fn law_uniform_drift_is_removed(
    tile: Seq<u8>,
    w: int,
    h: int,
    global: Seq<u8>,
    gw: int,
    b: int,
    drift: int,
)
    requires
        0 < w,
        0 < h,
        0 < b,
        tile.len() == w * h,
        forall|x: int, y: int|
            0 <= x < w && 0 <= y < h ==> #[trigger] level_at(global, gw, x, y) - level_at(
                tile,
                w,
                x,
                y,
            ) == drift,
    ensures
        calibrated(tile, w, h, global, gw, b) == Seq::new(
            (w * h) as nat,
            |i: int| global[(i / w) * gw + i % w],
        ),
{
    let result = calibrated(tile, w, h, global, gw, b);
    assert forall|i: int| 0 <= i < w * h implies result[i] == global[(i / w) * gw + i % w] by {
        lemma_offset_split(i, w, h);
        let x = i % w;
        let y = i / w;
        lemma_next_line_fits(x, b);
        lemma_next_line_fits(y, b);
        let c = x / b;
        let r = y / b;
        assert(0 <= c * b && 0 <= r * b && 0 <= (c + 1) * b && 0 <= (r + 1) * b);
        assert(corner_drift(tile, w, h, global, gw, b, c, r) == drift);
        assert(corner_drift(tile, w, h, global, gw, b, c + 1, r) == drift);
        assert(corner_drift(tile, w, h, global, gw, b, c, r + 1) == drift);
        assert(corner_drift(tile, w, h, global, gw, b, c + 1, r + 1) == drift);
        law_interpolation_lies_between_the_corners(
            drift,
            drift,
            drift,
            drift,
            x % b,
            y % b,
            b,
            drift,
            drift,
        );
        assert(level_at(global, gw, x, y) - level_at(tile, w, x, y) == drift);
        assert(0 < b * b) by (nonlinear_arith)
            requires
                0 < b,
        ;
        lemma_shift_by_whole_level(tile[i] as int, drift, b * b);
    }
    assert(result =~= Seq::new((w * h) as nat, |i: int| global[(i / w) * gw + i % w]));
}

/// Calibration looks at the mask of the whole image where grid lines cross, and nowhere else.
pub proof fn law_only_grid_points_matter(
    tile: Seq<u8>,
    w: int,
    h: int,
    first: Seq<u8>,
    first_w: int,
    second: Seq<u8>,
    second_w: int,
    b: int,
)
    requires
        0 < w,
        0 < h,
        0 < b,
        forall|c: int, r: int|
            0 <= c && 0 <= r ==> #[trigger] level_at(
                first,
                first_w,
                grid_line(c, b, w),
                grid_line(r, b, h),
            ) == level_at(second, second_w, grid_line(c, b, w), grid_line(r, b, h)),
    ensures
        calibrated(tile, w, h, first, first_w, b) == calibrated(tile, w, h, second, second_w, b),
{
    assert forall|i: int| 0 <= i < w * h implies calibrated(tile, w, h, first, first_w, b)[i]
        == calibrated(tile, w, h, second, second_w, b)[i] by {
        lemma_offset_split(i, w, h);
        lemma_next_line_fits(i % w, b);
        lemma_next_line_fits(i / w, b);
        let c = i % w / b;
        let r = i / w / b;
        lemma_same_drift(tile, w, h, first, first_w, second, second_w, b, c, r);
        lemma_same_drift(tile, w, h, first, first_w, second, second_w, b, c + 1, r);
        lemma_same_drift(tile, w, h, first, first_w, second, second_w, b, c, r + 1);
        lemma_same_drift(tile, w, h, first, first_w, second, second_w, b, c + 1, r + 1);
    }
    assert(calibrated(tile, w, h, first, first_w, b) =~= calibrated(
        tile,
        w,
        h,
        second,
        second_w,
        b,
    ));
}

proof fn lemma_same_drift(
    tile: Seq<u8>,
    w: int,
    h: int,
    first: Seq<u8>,
    first_w: int,
    second: Seq<u8>,
    second_w: int,
    b: int,
    c: int,
    r: int,
)
    requires
        level_at(first, first_w, grid_line(c, b, w), grid_line(r, b, h)) == level_at(
            second,
            second_w,
            grid_line(c, b, w),
            grid_line(r, b, h),
        ),
    ensures
        corner_drift(tile, w, h, first, first_w, b, c, r) == corner_drift(
            tile,
            w,
            h,
            second,
            second_w,
            b,
            c,
            r,
        ),
{
}

/// A mask of the whole image that is nowhere lower gives a calibrated mask that is nowhere
/// lower.
pub proof fn law_higher_mask_never_lowers_a_level(
    tile: Seq<u8>,
    w: int,
    h: int,
    lower: Seq<u8>,
    lower_w: int,
    higher: Seq<u8>,
    higher_w: int,
    b: int,
    i: int,
)
    requires
        0 < w,
        0 < h,
        0 < b,
        forall|x: int, y: int|
            0 <= x < w && 0 <= y < h ==> #[trigger] level_at(lower, lower_w, x, y) <= level_at(
                higher,
                higher_w,
                x,
                y,
            ),
        0 <= i < w * h,
    ensures
        calibrated(tile, w, h, lower, lower_w, b)[i] <= calibrated(
            tile,
            w,
            h,
            higher,
            higher_w,
            b,
        )[i],
{
    lemma_offset_split(i, w, h);
    let x = i % w;
    let y = i / w;
    lemma_next_line_fits(x, b);
    lemma_next_line_fits(y, b);
    let c = x / b;
    let r = y / b;
    assert(0 <= c * b && 0 <= r * b && 0 <= (c + 1) * b && 0 <= (r + 1) * b);
    let low00 = corner_drift(tile, w, h, lower, lower_w, b, c, r);
    let low10 = corner_drift(tile, w, h, lower, lower_w, b, c + 1, r);
    let low01 = corner_drift(tile, w, h, lower, lower_w, b, c, r + 1);
    let low11 = corner_drift(tile, w, h, lower, lower_w, b, c + 1, r + 1);
    let high00 = corner_drift(tile, w, h, higher, higher_w, b, c, r);
    let high10 = corner_drift(tile, w, h, higher, higher_w, b, c + 1, r);
    let high01 = corner_drift(tile, w, h, higher, higher_w, b, c, r + 1);
    let high11 = corner_drift(tile, w, h, higher, higher_w, b, c + 1, r + 1);
    assert(low00 <= high00 && low10 <= high10 && low01 <= high01 && low11 <= high11);
    let fx = x % b;
    let fy = y % b;
    lemma_corner_weights(fx, fy, b);
    lemma_product_rises(low00, high00, (b - fx) * (b - fy));
    lemma_product_rises(low10, high10, fx * (b - fy));
    lemma_product_rises(low01, high01, (b - fx) * fy);
    lemma_product_rises(low11, high11, fx * fy);
    assert(0 < b * b) by (nonlinear_arith)
        requires
            0 < b,
    ;
    lemma_shifted_level_rises(
        tile[i] as int,
        drift_scaled(tile, w, h, lower, lower_w, b, x, y),
        drift_scaled(tile, w, h, higher, higher_w, b, x, y),
        b * b,
    );
}

proof fn lemma_product_rises(low: int, high: int, weight: int)
    by (nonlinear_arith)
    requires
        low <= high,
        0 <= weight,
    ensures
        low * weight <= high * weight,
{
}

/// A larger drift never gives a lower level, and levels are bytes.
proof fn lemma_shifted_level_rises(level: int, low: int, high: int, scale: int)
    requires
        low <= high,
        0 < scale,
    ensures
        0 <= shifted_level(level, low, scale) <= shifted_level(level, high, scale) <= 255,
{
    let a = level * scale + low;
    let b = level * scale + high;
    if 0 <= a <= 255 * scale {
        lemma_quotient_is_level(a, scale);
    }
    if 0 <= b <= 255 * scale {
        lemma_quotient_is_level(b, scale);
    }
    vstd::arithmetic::div_mod::lemma_div_is_ordered(a, b, scale);
}

proof fn lemma_shift_by_whole_level(level: int, drift: int, scale: int)
    requires
        0 < scale,
        0 <= level + drift <= 255,
    ensures
        shifted_level(level, drift * scale, scale) == level + drift,
{
    let sum = level * scale + drift * scale;
    assert(sum == (level + drift) * scale && 0 <= sum <= 255 * scale) by (nonlinear_arith)
        requires
            sum == level * scale + drift * scale,
            0 < scale,
            0 <= level + drift <= 255,
    ;
    vstd::arithmetic::div_mod::lemma_div_by_multiple(level + drift, scale);
}

/// The calibrated level of a pixel, for tiles and blocks of every size. The pixel lies `fx`
/// pixels to the right of grid column `c` and `fy` pixels below grid row `r`; the next grid
/// lines are `b` pixels further, or at the last pixel of the tile. The differences between the
/// mask of the whole image and the tile's mask where these four lines cross are weighed by how
/// near the pixel is to each of them, and their mean is added to the pixel's own level, which is
/// then limited to 0..255 and rounded down.
pub proof fn law_calibrated_level_is_shifted_by_the_mean_drift(
    tile: Seq<u8>,
    w: int,
    h: int,
    global: Seq<u8>,
    gw: int,
    b: int,
    c: int,
    r: int,
    fx: int,
    fy: int,
)
    requires
        0 < b,
        0 <= c,
        0 <= r,
        0 <= fx < b,
        0 <= fy < b,
        c * b + fx < w,
        r * b + fy < h,
    ensures
        calibrated(tile, w, h, global, gw, b).len() == w * h,
        0 <= (r * b + fy) * w + (c * b + fx) < w * h,
        ({
            let x0 = c * b;
            let y0 = r * b;
            let x1 = if c * b + b < w - 1 {
                c * b + b
            } else {
                w - 1
            };
            let y1 = if r * b + b < h - 1 {
                r * b + b
            } else {
                h - 1
            };
            let d00 = global[y0 * gw + x0] - tile[y0 * w + x0];
            let d10 = global[y0 * gw + x1] - tile[y0 * w + x1];
            let d01 = global[y1 * gw + x0] - tile[y1 * w + x0];
            let d11 = global[y1 * gw + x1] - tile[y1 * w + x1];
            let own = tile[(y0 + fy) * w + (x0 + fx)];
            let sum = own * (b * b) + (d00 * ((b - fx) * (b - fy)) + d10 * (fx * (b - fy)) + d01 * ((b
                - fx) * fy) + d11 * (fx * fy));
            let level = calibrated(tile, w, h, global, gw, b)[(y0 + fy) * w + (x0 + fx)];
            &&& sum < 0 ==> level == 0
            &&& 0 <= sum <= 255 * (b * b) ==> level == sum / (b * b)
            &&& sum > 255 * (b * b) ==> level == 255
        }),
{
    let x = c * b + fx;
    let y = r * b + fy;
    assert(0 <= c * b && 0 <= r * b) by (nonlinear_arith)
        requires
            0 < b,
            0 <= c,
            0 <= r,
    ;
    assert((c + 1) * b == c * b + b && (r + 1) * b == r * b + b) by (nonlinear_arith);
    lemma_offset_join(fx, c, b);
    lemma_offset_join(fy, r, b);
    lemma_offset_bound(x, y, w, h);
    lemma_offset_join(x, y, w);
    assert(0 < b * b) by (nonlinear_arith)
        requires
            0 < b,
    ;
    let sum = tile[y * w + x] * (b * b) + drift_scaled(tile, w, h, global, gw, b, x, y);
    if 0 <= sum <= 255 * (b * b) {
        lemma_quotient_is_level(sum, b * b);
    }
}

/// Where the mask of the whole image agrees with the tile's mask at the four grid points around
/// a pixel, the pixel keeps the level that the tile's mask has there.
pub proof fn law_level_is_kept_where_the_corners_agree(
    tile: Seq<u8>,
    w: int,
    h: int,
    global: Seq<u8>,
    gw: int,
    b: int,
    x: int,
    y: int,
)
    requires
        0 < b,
        0 <= x < w,
        0 <= y < h,
        forall|u: int, v: int|
            x - b < u <= x + b && y - b < v <= y + b && 0 <= u < w && 0 <= v < h && (u % b == 0 || u
                == w - 1) && (v % b == 0 || v == h - 1) ==> global[v * gw + u] == #[trigger] level_at(
                tile,
                w,
                u,
                v,
            ),
    ensures
        calibrated(tile, w, h, global, gw, b)[y * w + x] == tile[y * w + x],
{
    lemma_next_line_fits(x, b);
    lemma_next_line_fits(y, b);
    vstd::arithmetic::div_mod::lemma_fundamental_div_mod(x, b);
    vstd::arithmetic::div_mod::lemma_fundamental_div_mod(y, b);
    let c = x / b;
    let r = y / b;
    assert(b * c == c * b && b * r == r * b) by (nonlinear_arith);
    assert((c + 1) * b == c * b + b && (r + 1) * b == r * b + b) by (nonlinear_arith);
    let x0 = grid_line(c, b, w);
    let x1 = grid_line(c + 1, b, w);
    let y0 = grid_line(r, b, h);
    let y1 = grid_line(r + 1, b, h);
    lemma_offset_join(0, c, b);
    lemma_offset_join(0, c + 1, b);
    lemma_offset_join(0, r, b);
    lemma_offset_join(0, r + 1, b);
    assert(level_at(tile, w, x0, y0) == global[y0 * gw + x0]);
    assert(level_at(tile, w, x1, y0) == global[y0 * gw + x1]);
    assert(level_at(tile, w, x0, y1) == global[y1 * gw + x0]);
    assert(level_at(tile, w, x1, y1) == global[y1 * gw + x1]);
    law_calibrated_level_is_shifted_by_the_mean_drift(
        tile,
        w,
        h,
        global,
        gw,
        b,
        c,
        r,
        x % b,
        y % b,
    );
    assert(0 < b * b) by (nonlinear_arith)
        requires
            0 < b,
    ;
    let own = tile[y * w + x] as int;
    let fx = x % b;
    let fy = y % b;
    assert(0 * ((b - fx) * (b - fy)) == 0 && 0 * (fx * (b - fy)) == 0 && 0 * ((b - fx) * fy) == 0 && 0
        * (fx * fy) == 0);
    lemma_shift_by_whole_level(own, 0, b * b);
    assert(0 <= own * (b * b) <= 255 * (b * b)) by (nonlinear_arith)
        requires
            0 <= own <= 255,
            0 < b * b,
    ;
}

/// Interpolation is straight along both axes: between the two ends of a row, or of a column, the
/// value changes by the same amount from pixel to pixel.
pub proof fn law_interpolation_is_straight(
    a00: int,
    a10: int,
    a01: int,
    a11: int,
    fx: int,
    fy: int,
    b: int,
)
    ensures
        bilinear_scaled(a00, a10, a01, a11, fx, fy, b) * b == bilinear_scaled(
            a00,
            a10,
            a01,
            a11,
            0,
            fy,
            b,
        ) * (b - fx) + bilinear_scaled(a00, a10, a01, a11, b, fy, b) * fx,
        bilinear_scaled(a00, a10, a01, a11, fx, fy, b) * b == bilinear_scaled(
            a00,
            a10,
            a01,
            a11,
            fx,
            0,
            b,
        ) * (b - fy) + bilinear_scaled(a00, a10, a01, a11, fx, b, b) * fy,
        bilinear_scaled(a00, a10, a01, a11, fx, fy, b) == a00 * ((b - fx) * (b - fy)) + a10 * (fx * (b
            - fy)) + a01 * ((b - fx) * fy) + a11 * (fx * fy),
{
    let p = b - fx;
    let q = b - fy;
    let value = bilinear_scaled(a00, a10, a01, a11, fx, fy, b);
    lemma_sum_of_four(a00 * (p * q), a10 * (fx * q), a01 * (p * fy), a11 * (fx * fy), b);
    assert(0 * q == 0 && 0 * fy == 0 && p * 0 == 0 && fx * 0 == 0);
    assert(a00 * 0 == 0 && a10 * 0 == 0 && a01 * 0 == 0 && a11 * 0 == 0);
    assert(value * b == bilinear_scaled(a00, a10, a01, a11, 0, fy, b) * p + bilinear_scaled(
        a00,
        a10,
        a01,
        a11,
        b,
        fy,
        b,
    ) * fx) by {
        lemma_sum_of_four(a00 * (b * q), 0, a01 * (b * fy), 0, p);
        lemma_sum_of_four(0, a10 * (b * q), 0, a11 * (b * fy), fx);
        lemma_factors_swap(a00, p, q, b);
        lemma_factors_swap(a01, p, fy, b);
        lemma_factors_swap(a10, fx, q, b);
        lemma_factors_swap(a11, fx, fy, b);
    }
    assert(value * b == bilinear_scaled(a00, a10, a01, a11, fx, 0, b) * q + bilinear_scaled(
        a00,
        a10,
        a01,
        a11,
        fx,
        b,
        b,
    ) * fy) by {
        lemma_sum_of_four(a00 * (p * b), a10 * (fx * b), 0, 0, q);
        lemma_sum_of_four(0, 0, a01 * (p * b), a11 * (fx * b), fy);
        lemma_factors_swap(a00, q, p, b);
        lemma_factors_swap(a10, q, fx, b);
        lemma_factors_swap(a01, fy, p, b);
        lemma_factors_swap(a11, fy, fx, b);
    }
}

proof fn lemma_sum_of_four(a: int, b: int, c: int, d: int, factor: int)
    by (nonlinear_arith)
    ensures
        (a + b + c + d) * factor == a * factor + b * factor + c * factor + d * factor,
{
}

proof fn lemma_factors_swap(a: int, p: int, q: int, b: int)
    by (nonlinear_arith)
    ensures
        a * (p * q) * b == a * (b * q) * p,
        a * (q * p) * b == a * (q * b) * p,
{
}

/// The block sizes that tiles can be calibrated with are the powers of two up to 128, and with
/// these the scale of an interpolated value is at most 16,384.
pub proof fn law_block_sizes_are_powers_of_two(b: int)
    ensures
        exact_block_size(1),
        exact_block_size(b * 2) <==> b < 128 && exact_block_size(b),
        exact_block_size(b) ==> 1 <= b <= 128 && 1 <= b * b <= 16384,
{
    if exact_block_size(b) {
        assert(1 <= b * b <= 16384) by (nonlinear_arith)
            requires
                1 <= b <= 128,
        ;
    }
}

} // verus!
