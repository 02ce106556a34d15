//! The visible part of a picture.

use vstd::prelude::*;
use crate::arith::{lemma_offset_bound, lemma_offset_join, lemma_offset_split};
use crate::raster::{law_window_is_a_part_of_the_picture, rgba_window, RgbaImage};

verus! {

/// The alpha up to which a pixel counts as invisible.
pub const ALPHA_THRESHOLD: u8 = 10;

/// Whether the pixel in column `x` and row `y` is visible.
pub open spec fn visible(picture: &RgbaImage, x: int, y: int) -> bool {
    &&& 0 <= x < picture.width
    &&& 0 <= y < picture.height
    &&& picture.channel(x, y, 3) > ALPHA_THRESHOLD
}

/// Whether a picture has a visible pixel.
pub open spec fn has_visible(picture: &RgbaImage) -> bool {
    exists|x: int, y: int| visible(picture, x, y)
}

/// Whether column `x` has a visible pixel.
pub open spec fn column_is_visible(picture: &RgbaImage, x: int) -> bool {
    exists|y: int| visible(picture, x, y)
}

/// Whether row `y` has a visible pixel.
pub open spec fn row_is_visible(picture: &RgbaImage, y: int) -> bool {
    exists|x: int| visible(picture, x, y)
}

/// Whether `bounds`, a first column and row and a last column and row, encloses the visible
/// pixels tightly: no visible pixel lies outside, and each of the four sides touches one.
pub open spec fn tight_bounds(picture: &RgbaImage, bounds: (u32, u32, u32, u32)) -> bool {
    let (min_x, min_y, max_x, max_y) = bounds;
    &&& forall|x: int, y: int| #[trigger]
        visible(picture, x, y) ==> min_x <= x <= max_x && min_y <= y <= max_y
    &&& column_is_visible(picture, min_x as int)
    &&& row_is_visible(picture, min_y as int)
    &&& column_is_visible(picture, max_x as int)
    &&& row_is_visible(picture, max_y as int)
}

/// Whether the pixel in column `x` and row `y` is visible and stands before position `n`.
spec fn seen(picture: &RgbaImage, x: int, y: int, n: int) -> bool {
    visible(picture, x, y) && y * picture.width + x < n
}

/// The smallest box that holds all visible pixels, as its first column and row and its
/// last column and row; nothing where no pixel is visible.
pub fn find_alpha_bounds(picture: &RgbaImage) -> (bounds: Option<(u32, u32, u32, u32)>)
    requires
        picture.wf(),
    ensures
        bounds is Some <==> has_visible(picture),
        bounds matches Some(b) ==> tight_bounds(picture, b),
{
    let mut min_x: u32 = u32::MAX;
    let mut max_x: u32 = 0;
    let mut min_y: u32 = u32::MAX;
    let mut max_y: u32 = 0;
    let mut any: bool = false;
    let wide: usize = picture.width as usize;
    let total: usize = picture.data.len() / 4;
    let mut i: usize = 0;
    while i < total
        invariant
            picture.wf(),
            wide == picture.width,
            total == picture.width * picture.height,
            0 <= i <= total,
            !any ==> min_x == u32::MAX && min_y == u32::MAX && max_x == 0 && max_y == 0,
            any ==> min_x <= max_x && min_y <= max_y,
            any <==> exists|x: int, y: int| #[trigger] seen(picture, x, y, i as int),
            forall|x: int, y: int| #[trigger]
                seen(picture, x, y, i as int) ==> min_x <= x <= max_x && min_y <= y <= max_y,
            any ==> column_is_visible(picture, min_x as int) && row_is_visible(
                picture,
                min_y as int,
            ) && column_is_visible(picture, max_x as int) && row_is_visible(picture, max_y as int),
        decreases total - i,
    {
        proof {
            lemma_offset_split(i as int, picture.width as int, picture.height as int);
        }
        let x: u32 = (i % wide) as u32;
        let y: u32 = (i / wide) as u32;
        let alpha: u8 = picture.data[i * 4 + 3];
        if alpha > ALPHA_THRESHOLD {
            if x < min_x {
                min_x = x;
            }
            if x > max_x {
                max_x = x;
            }
            if y < min_y {
                min_y = y;
            }
            if y > max_y {
                max_y = y;
            }
            any = true;
        }
        proof {
            let n = i as int;
            assert forall|a: int, b: int| #[trigger]
                seen(picture, a, b, n + 1) implies seen(picture, a, b, n) || (a == x && b == y) by {
                if !seen(picture, a, b, n) {
                    assert(b * picture.width + a == n);
                    lemma_offset_join(a, b, picture.width as int);
                }
            }
            assert forall|a: int, b: int| #[trigger] seen(picture, a, b, n) implies seen(
                picture,
                a,
                b,
                n + 1,
            ) by {}
            if alpha > ALPHA_THRESHOLD {
                assert(seen(picture, x as int, y as int, n + 1));
            }
        }
        i = i + 1;
    }
    proof {
        let n = total as int;
        assert forall|x: int, y: int| #[trigger] visible(picture, x, y) implies seen(
            picture,
            x,
            y,
            n,
        ) by {
            lemma_offset_bound(x, y, picture.width as int, picture.height as int);
        }
    }
    if min_x <= max_x && min_y <= max_y {
        Some((min_x, min_y, max_x, max_y))
    } else {
        None
    }
}

/// There is only one box that encloses the visible pixels tightly.
pub proof fn law_tight_bounds_are_unique(
    picture: &RgbaImage,
    a: (u32, u32, u32, u32),
    b: (u32, u32, u32, u32),
)
    requires
        tight_bounds(picture, a),
        tight_bounds(picture, b),
    ensures
        a == b,
        a.0 <= a.2 < picture.width,
        a.1 <= a.3 < picture.height,
{
}

/// The pixels that [`crop_to_visible`] keeps: from the first column and row of the bounds
/// on, up to, but not with, the last column and row.
pub open spec fn visible_window(picture: &RgbaImage, bounds: (u32, u32, u32, u32)) -> Seq<u8> {
    rgba_window(
        picture.data@,
        picture.width as int,
        bounds.0 as int,
        bounds.1 as int,
        bounds.2 - bounds.0,
        bounds.3 - bounds.1,
    )
}

/// Cuts a picture down to its visible part; nothing where no pixel is visible.
///
/// The last column and the last row of the visible part are cut away with the rest.
pub fn crop_to_visible(picture: &RgbaImage) -> (part: Option<RgbaImage>)
    requires
        picture.wf(),
    ensures
        part is Some <==> has_visible(picture),
        part matches Some(p) ==> p.wf() && exists|bounds: (u32, u32, u32, u32)|
            #[trigger] tight_bounds(picture, bounds) && p.width == bounds.2 - bounds.0 && p.height
                == bounds.3 - bounds.1 && p.data@ == visible_window(picture, bounds),
{
    match find_alpha_bounds(picture) {
        Some((min_x, min_y, max_x, max_y)) => {
            let ghost bounds = (min_x, min_y, max_x, max_y);
            proof {
                law_tight_bounds_are_unique(picture, bounds, bounds);
            }
            Some(picture.crop(min_x, min_y, max_x - min_x, max_y - min_y))
        },
        None => None,
    }
}

/// The visible pixels that a crop keeps are those inside the bounds, but for the last column
/// and the last row, each in its place.
pub proof fn law_crop_keeps_the_pixels(
    picture: &RgbaImage,
    bounds: (u32, u32, u32, u32),
    x: int,
    y: int,
    c: int,
)
    requires
        picture.wf(),
        tight_bounds(picture, bounds),
        bounds.0 <= x < bounds.2,
        bounds.1 <= y < bounds.3,
        0 <= c < 4,
    ensures
        visible_window(picture, bounds)[((y - bounds.1) * (bounds.2 - bounds.0) + (x - bounds.0))
            * 4 + c] == picture.channel(x, y, c),
{
    let w = bounds.2 - bounds.0;
    let h = bounds.3 - bounds.1;
    let cell = (y - bounds.1) * w + (x - bounds.0);
    lemma_offset_bound(x - bounds.0, y - bounds.1, w, h);
    lemma_offset_join(x - bounds.0, y - bounds.1, w);
    let i = cell * 4 + c;
    assert(i / 4 == cell && i % 4 == c);
}

/// A pixel is visible where its alpha is above 10.
pub proof fn law_visible_is_alpha_above_ten(picture: &RgbaImage, x: int, y: int)
    requires
        0 <= x < picture.width,
        0 <= y < picture.height,
    ensures
        visible(picture, x, y) <==> picture.data@[(y * picture.width + x) * 4 + 3] > 10,
        picture.data@[(y * picture.width + x) * 4 + 3] > 10 ==> has_visible(picture),
{
    if picture.data@[(y * picture.width + x) * 4 + 3] > 10 {
        assert(visible(picture, x, y));
    }
}

/// A picture has no visible pixel where no alpha is above 10.
pub proof fn law_transparent_picture_has_no_visible_pixel(picture: &RgbaImage)
    requires
        forall|p: int|
            0 <= p < picture.width * picture.height ==> picture.data@[#[trigger] (p * 4 + 3)] <= 10,
    ensures
        !has_visible(picture),
{
    assert forall|x: int, y: int| !#[trigger] visible(picture, x, y) by {
        if visible(picture, x, y) {
            lemma_offset_bound(x, y, picture.width as int, picture.height as int);
            let p = y * picture.width + x;
            assert(picture.data@[p * 4 + 3] <= 10);
        }
    }
}

/// Tight bounds hold every pixel whose alpha is above 10, and on each of their four sides lies
/// one.
pub proof fn law_bounds_hold_the_visible_pixels(
    picture: &RgbaImage,
    bounds: (u32, u32, u32, u32),
    x: int,
    y: int,
)
    requires
        tight_bounds(picture, bounds),
        0 <= x < picture.width,
        0 <= y < picture.height,
    ensures
        picture.data@[(y * picture.width + x) * 4 + 3] > 10 ==> bounds.0 <= x <= bounds.2 && bounds.1
            <= y <= bounds.3,
        exists|v: int|
            0 <= v < picture.height && picture.data@[#[trigger] ((v * picture.width + bounds.0) * 4
                + 3)] > 10,
        exists|v: int|
            0 <= v < picture.height && picture.data@[#[trigger] ((v * picture.width + bounds.2) * 4
                + 3)] > 10,
        exists|u: int|
            0 <= u < picture.width && picture.data@[#[trigger] ((bounds.1 * picture.width + u) * 4
                + 3)] > 10,
        exists|u: int|
            0 <= u < picture.width && picture.data@[#[trigger] ((bounds.3 * picture.width + u) * 4
                + 3)] > 10,
        bounds.2 < picture.width,
        bounds.3 < picture.height,
{
    if picture.data@[(y * picture.width + x) * 4 + 3] > 10 {
        assert(visible(picture, x, y));
    }
    let left = choose|v: int| visible(picture, bounds.0 as int, v);
    let right = choose|v: int| visible(picture, bounds.2 as int, v);
    let top = choose|u: int| visible(picture, u, bounds.1 as int);
    let bottom = choose|u: int| visible(picture, u, bounds.3 as int);
    assert(picture.data@[(left * picture.width + bounds.0) * 4 + 3] > 10);
    assert(picture.data@[(right * picture.width + bounds.2) * 4 + 3] > 10);
    assert(picture.data@[(bounds.1 * picture.width + top) * 4 + 3] > 10);
    assert(picture.data@[(bounds.3 * picture.width + bottom) * 4 + 3] > 10);
}

/// The pixel in column `c` and row `r` of what a crop keeps is the pixel that lies as far to the
/// right of, and below, the upper left corner of the bounds; the last column and the last row of
/// the bounds are not kept.
pub proof fn law_crop_starts_at_the_bounds(
    picture: &RgbaImage,
    bounds: (u32, u32, u32, u32),
    c: int,
    r: int,
    channel: int,
)
    requires
        0 <= c < bounds.2 - bounds.0,
        0 <= r < bounds.3 - bounds.1,
        0 <= channel < 4,
    ensures
        visible_window(picture, bounds).len() == (bounds.2 - bounds.0) * (bounds.3 - bounds.1) * 4,
        visible_window(picture, bounds)[(r * (bounds.2 - bounds.0) + c) * 4 + channel]
            == picture.data@[((bounds.1 + r) * picture.width + (bounds.0 + c)) * 4 + channel],
{
    law_window_is_a_part_of_the_picture(
        picture.data@,
        picture.width as int,
        bounds.0 as int,
        bounds.1 as int,
        bounds.2 - bounds.0,
        bounds.3 - bounds.1,
        c,
        r,
        channel,
    );
}

} // verus!
