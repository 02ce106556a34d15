//! The plan by which a large image is cut into overlapping tiles.

use vstd::prelude::*;
use crate::arith::{lemma_offset_bound, lemma_offset_join, lemma_offset_split};
use crate::raster::GrayImage;

verus! {

/// The number of steps of length `step` that reach `a`.
pub open spec fn steps_to(a: int, step: int) -> int {
    (a + step - 1) / step
}

/// The last position at which a tile of length `tile` fits on an axis of length
/// `len`; 0 where none fits.
pub open spec fn last_position(len: int, tile: int) -> int {
    if tile < len {
        len - tile
    } else {
        0
    }
}

/// The positions of the tiles on one axis: multiples of `step`, as long as they lie
/// before the last position, and then the last position, if a multiple of `step`
/// inside the axis reaches it.
pub open spec fn tile_positions_on(len: int, tile: int, step: int) -> Seq<u32> {
    let last = last_position(len, tile);
    let inner = steps_to(last, step);
    if len <= 0 {
        Seq::empty()
    } else {
        Seq::new(
            (if inner * step < len {
                inner + 1
            } else {
                inner
            }) as nat,
            |k: int| (if k * step < last { k * step } else { last }) as u32,
        )
    }
}

/// The length by which neighbouring tiles are planned to overlap.
pub open spec fn overlap_of(model_w: int) -> int {
    model_w / 4
}

/// The distance between the starts of neighbouring tiles, on both axes.
pub open spec fn step_of(model_w: int) -> int {
    model_w - overlap_of(model_w)
}

/// The number of steps that reach `a` is the least whose sum is at least `a`.
proof fn lemma_steps_to(a: int, step: int)
    requires
        0 <= a,
        0 < step,
    ensures
        0 <= steps_to(a, step),
        a <= steps_to(a, step) * step < a + step,
        forall|k: int| #![trigger k * step] k < steps_to(a, step) ==> k * step < a,
        forall|k: int| #![trigger k * step] k >= steps_to(a, step) ==> k * step >= a,
{
    let n = steps_to(a, step);
    vstd::arithmetic::div_mod::lemma_fundamental_div_mod(a + step - 1, step);
    vstd::arithmetic::div_mod::lemma_mod_bound(a + step - 1, step);
    vstd::arithmetic::div_mod::lemma_div_pos_is_pos(a + step - 1, step);
    assert(step * n == n * step) by (nonlinear_arith);
    assert forall|k: int| #![trigger k * step] k < n implies k * step < a by {
        assert(k * step + step <= n * step) by (nonlinear_arith)
            requires
                k + 1 <= n,
                0 < step,
        ;
    }
    assert forall|k: int| #![trigger k * step] k >= n implies k * step >= a by {
        assert(k * step >= n * step) by (nonlinear_arith)
            requires
                k >= n,
                0 < step,
        ;
    }
}

/// The positions of the tiles on an axis of length `len`.
pub fn tile_positions(len: u32, tile: u32, step: u32) -> (positions: Vec<u32>)
    requires
        len > 0 ==> step > 0,
        len > 0 ==> steps_to(len as int, step as int) * step <= u32::MAX,
    ensures
        positions@ == tile_positions_on(len as int, tile as int, step as int),
{
    let mut positions: Vec<u32> = Vec::new();
    if len == 0 {
        return positions;
    }
    let limit: u32 = if tile < len {
        len - tile
    } else {
        0
    };
    let ghost inner = steps_to(limit as int, step as int);
    let ghost mut j: int = 0;
    let mut at: u32 = 0;
    proof {
        lemma_steps_to(limit as int, step as int);
        lemma_steps_to(len as int, step as int);
    }
    while at < len
        invariant
            0 < step,
            limit == last_position(len as int, tile as int),
            limit <= len,
            steps_to(len as int, step as int) * step <= u32::MAX,
            inner == steps_to(limit as int, step as int),
            0 <= j,
            at == j * step,
            j > inner ==> inner * step < len,
            positions@.len() == (if j <= inner {
                j
            } else {
                inner + 1
            }),
            forall|k: int|
                0 <= k < positions@.len() ==> #[trigger] positions@[k] == (if k * step < limit {
                    k * step
                } else {
                    limit as int
                }),
        decreases steps_to(len as int, step as int) - j,
    {
        proof {
            lemma_steps_to(limit as int, step as int);
            lemma_steps_to(len as int, step as int);
            assert(j < steps_to(len as int, step as int));
            assert((j + 1) * step == j * step + step) by (nonlinear_arith);
            assert((j + 1) * step <= steps_to(len as int, step as int) * step) by (nonlinear_arith)
                requires
                    j + 1 <= steps_to(len as int, step as int),
                    0 < step,
            ;
            assert((j - 1) * step == j * step - step) by (nonlinear_arith);
        }
        let position: u32 = if at < limit {
            at
        } else {
            limit
        };
        if positions.len() == 0 || position != positions[positions.len() - 1] {
            positions.push(position);
        }
        at = at + step;
        proof {
            j = j + 1;
        }
    }
    positions
}

/// The weight, in parts of `overlap`, that a tile of length `dim` has at its pixel
/// `p`: the distance to the nearer end of the tile, but at least 1 and at most
/// `overlap` (or 1, where `overlap` is 0).
pub open spec fn overlap_weight(p: int, dim: int, overlap: int) -> int {
    let nearer = if p < dim - p - 1 {
        p
    } else {
        dim - p - 1
    };
    let limited = if nearer < overlap {
        nearer
    } else {
        overlap
    };
    if limited < 1 {
        1
    } else {
        limited
    }
}

/// The weight of pixel `px` of a tile of length `dim`, in parts of `overlap`.
pub fn overlap_dist(px: u32, dim: u32, overlap: u32) -> (weight: u32)
    requires
        px < dim,
    ensures
        weight == overlap_weight(px as int, dim as int, overlap as int),
{
    let before: u32 = if px < overlap {
        px
    } else {
        overlap
    };
    let left: u32 = if before < 1 {
        1
    } else {
        before
    };
    let after: u32 = dim - px - 1;
    let behind: u32 = if after < overlap {
        after
    } else {
        overlap
    };
    let right: u32 = if behind < 1 {
        1
    } else {
        behind
    };
    if left < right {
        left
    } else {
        right
    }
}

/// What a tile contributes to one pixel of the image: the position of the pixel in
/// the image, the level of the tile's mask there, and the weight of that level in
/// parts of the overlap.
#[derive(Debug, Clone, Copy, PartialEq, Eq)]
pub struct Contribution {
    pub index: usize,
    pub level: u8,
    pub weight: u32,
}

/// The contribution of pixel `i` of a tile of `mw` by `mh` pixels that starts at
/// column `x` and row `y` of an image whose rows are `img_w` pixels long.
pub open spec fn contribution_at(
    levels: Seq<u8>,
    mw: int,
    mh: int,
    x: int,
    y: int,
    img_w: int,
    overlap: int,
    i: int,
) -> Contribution {
    let across = overlap_weight(i % mw, mw, overlap);
    let down = overlap_weight(i / mw, mh, overlap);
    Contribution {
        index: ((y + i / mw) * img_w + (x + i % mw)) as usize,
        level: levels[i],
        weight: (if across < down {
            across
        } else {
            down
        }) as u32,
    }
}

/// The contributions of all pixels of a tile, row by row.
pub open spec fn contributions_of(
    levels: Seq<u8>,
    mw: int,
    mh: int,
    x: int,
    y: int,
    img_w: int,
    overlap: int,
) -> Seq<Contribution> {
    Seq::new(
        (mw * mh) as nat,
        |i: int| contribution_at(levels, mw, mh, x, y, img_w, overlap, i),
    )
}

/// Lists what the mask of a tile contributes to the pixels of the image.
pub fn tile_contributions(
    mask: &GrayImage,
    x: u32,
    y: u32,
    img_w: u32,
    img_h: u32,
    overlap: u32,
) -> (list: Vec<Contribution>)
    requires
        mask.wf(),
        x + mask.width <= img_w,
        y + mask.height <= img_h,
        img_w * img_h <= usize::MAX,
    ensures
        list@ == contributions_of(
            mask.data@,
            mask.width as int,
            mask.height as int,
            x as int,
            y as int,
            img_w as int,
            overlap as int,
        ),
{
    let mw: usize = mask.width as usize;
    let total: usize = mask.data.len();
    let mut list: Vec<Contribution> = Vec::new();
    let mut i: usize = 0;
    while i < total
        invariant
            mask.wf(),
            mw == mask.width,
            x + mask.width <= img_w,
            y + mask.height <= img_h,
            img_w * img_h <= usize::MAX,
            total == mask.width * mask.height,
            0 <= i <= total,
            list@.len() == i,
            forall|k: int|
                0 <= k < i ==> #[trigger] list@[k] == contribution_at(
                    mask.data@,
                    mask.width as int,
                    mask.height as int,
                    x as int,
                    y as int,
                    img_w as int,
                    overlap as int,
                    k,
                ),
        decreases total - i,
    {
        proof {
            lemma_offset_split(i as int, mask.width as int, mask.height as int);
            lemma_offset_bound(
                x + i as int % mask.width as int,
                y + i as int / mask.width as int,
                img_w as int,
                img_h as int,
            );
        }
        let px: u32 = (i % mw) as u32;
        let py: u32 = (i / mw) as u32;
        let index: usize = ((y + py) as usize) * (img_w as usize) + ((x + px) as usize);
        let across: u32 = overlap_dist(px, mask.width, overlap);
        let down: u32 = overlap_dist(py, mask.height, overlap);
        let weight: u32 = if across < down {
            across
        } else {
            down
        };
        list.push(Contribution { index, level: mask.data[i], weight });
        i = i + 1;
    }
    assert(list@ =~= contributions_of(
        mask.data@,
        mask.width as int,
        mask.height as int,
        x as int,
        y as int,
        img_w as int,
        overlap as int,
    ));
    list
}

/// Every tile lies inside the axis.
pub proof fn law_tiles_fit(len: int, tile: int, step: int, k: int)
    requires
        0 <= tile <= len <= u32::MAX,
        0 < step,
        0 <= k < tile_positions_on(len, tile, step).len(),
    ensures
        0 <= tile_positions_on(len, tile, step)[k],
        tile_positions_on(len, tile, step)[k] + tile <= len,
{
    assert(0 <= k * step) by (nonlinear_arith)
        requires
            0 <= k,
            0 < step,
    ;
}

/// The tiles on an axis are listed from its start on, and no two are the same. The
/// first starts at 0.
pub proof fn law_tiles_ascend(len: int, tile: int, step: int)
    requires
        0 <= tile <= len <= u32::MAX,
        0 < step,
    ensures
        forall|i: int, j: int|
            0 <= i < j < tile_positions_on(len, tile, step).len() ==> #[trigger] tile_positions_on(
                len,
                tile,
                step,
            )[i] < #[trigger] tile_positions_on(len, tile, step)[j],
        0 < tile && 0 < len ==> tile_positions_on(len, tile, step).len() > 0,
        tile_positions_on(len, tile, step).len() > 0 ==> tile_positions_on(len, tile, step)[0] == 0,
{
    let positions = tile_positions_on(len, tile, step);
    let last = last_position(len, tile);
    lemma_steps_to(last, step);
    assert forall|i: int, j: int| 0 <= i < j < positions.len() implies #[trigger] positions[i]
        < #[trigger] positions[j] by {
        assert(0 <= i * step && i * step < j * step) by (nonlinear_arith)
            requires
                0 <= i < j,
                0 < step,
        ;
        assert(i * step < last);
    }
    assert(0 * step == 0);
}

/// Where tiles are at least as long as the distance between them, the last one ends
/// at the end of the axis.
pub proof fn law_last_tile_reaches_the_end(len: int, tile: int, step: int)
    requires
        0 < step <= tile <= len <= u32::MAX,
    ensures
        tile_positions_on(len, tile, step).len() > 0,
        tile_positions_on(len, tile, step).last() + tile == len,
{
    lemma_steps_to(last_position(len, tile), step);
}

/// Where tiles are at least as long as the distance between them, every pixel of the
/// axis lies in one.
pub proof fn law_tiles_cover_the_axis(len: int, tile: int, step: int, x: int)
    requires
        0 < step <= tile <= len <= u32::MAX,
        0 <= x < len,
    ensures
        exists|k: int|
            0 <= k < tile_positions_on(len, tile, step).len() && #[trigger] tile_positions_on(
                len,
                tile,
                step,
            )[k] <= x < tile_positions_on(len, tile, step)[k] + tile,
{
    let positions = tile_positions_on(len, tile, step);
    let last = last_position(len, tile);
    let inner = steps_to(last, step);
    lemma_steps_to(last, step);
    if x >= last {
        assert(positions[inner] <= x < positions[inner] + tile);
    } else {
        let k = x / step;
        vstd::arithmetic::div_mod::lemma_fundamental_div_mod(x, step);
        vstd::arithmetic::div_mod::lemma_mod_bound(x, step);
        vstd::arithmetic::div_mod::lemma_div_pos_is_pos(x, step);
        assert(k * step == step * k) by (nonlinear_arith);
        assert(k < inner);
        assert(positions[k] <= x < positions[k] + tile);
    }
}

/// A weight is never 0, never above the overlap (or 1, where the overlap is 0), the
/// same seen from either end of the tile, and full away from both ends.
pub proof fn law_overlap_weight(p: int, dim: int, overlap: int)
    requires
        0 <= p < dim,
        0 <= overlap,
    ensures
        1 <= overlap_weight(p, dim, overlap),
        overlap_weight(p, dim, overlap) <= (if overlap < 1 {
            1
        } else {
            overlap
        }),
        overlap_weight(dim - 1 - p, dim, overlap) == overlap_weight(p, dim, overlap),
        1 <= overlap <= p && overlap <= dim - 1 - p ==> overlap_weight(p, dim, overlap) == overlap,
{
}

/// A tile that lies inside the image contributes to pixels of the image only, and
/// with weights of at least 1.
pub proof fn law_contributions_stay_in_the_image(
    levels: Seq<u8>,
    mw: int,
    mh: int,
    x: int,
    y: int,
    img_w: int,
    img_h: int,
    overlap: int,
    i: int,
)
    requires
        0 <= x,
        0 <= y,
        0 <= mw,
        0 <= mh,
        x + mw <= img_w,
        y + mh <= img_h,
        img_w * img_h <= usize::MAX,
        img_w <= u32::MAX,
        0 <= overlap <= u32::MAX,
        0 <= i < mw * mh,
    ensures
        contributions_of(levels, mw, mh, x, y, img_w, overlap)[i].index < img_w * img_h,
        1 <= contributions_of(levels, mw, mh, x, y, img_w, overlap)[i].weight,
{
    lemma_offset_split(i, mw, mh);
    lemma_offset_bound(x + i % mw, y + i / mw, img_w, img_h);
    law_overlap_weight(i % mw, mw, overlap);
    law_overlap_weight(i / mw, mh, overlap);
}

/// A tile contributes to each pixel of the image that it covers, with the level that
/// its mask has there.
pub proof fn law_covered_pixel_gets_a_contribution(
    levels: Seq<u8>,
    mw: int,
    mh: int,
    x: int,
    y: int,
    img_w: int,
    img_h: int,
    overlap: int,
    px: int,
    py: int,
)
    requires
        0 <= x <= px < x + mw <= img_w,
        0 <= y <= py < y + mh <= img_h,
        img_w * img_h <= usize::MAX,
    ensures
        0 <= (py - y) * mw + (px - x) < mw * mh,
        contributions_of(levels, mw, mh, x, y, img_w, overlap)[(py - y) * mw + (px - x)].index
            == py * img_w + px,
        contributions_of(levels, mw, mh, x, y, img_w, overlap)[(py - y) * mw + (px - x)].level
            == levels[(py - y) * mw + (px - x)],
{
    lemma_offset_bound(px - x, py - y, mw, mh);
    lemma_offset_join(px - x, py - y, mw);
    lemma_offset_bound(px, py, img_w, img_h);
}

/// There are no more tiles than pixels on the axis.
pub proof fn lemma_tile_count_bound(len: int, tile: int, step: int)
    requires
        0 <= len,
        0 <= tile,
        len > 0 ==> 0 < step,
    ensures
        tile_positions_on(len, tile, step).len() <= len,
{
    if len > 0 {
        let last = last_position(len, tile);
        let inner = steps_to(last, step);
        lemma_steps_to(last, step);
        assert(inner <= last) by (nonlinear_arith)
            requires
                inner * step < last + step,
                0 <= inner,
                0 <= last,
                0 < step,
        ;
    }
}

/// The number of steps that reach a length is the least: one step less does not reach it.
pub proof fn law_no_step_is_wasted(a: int, step: int)
    requires
        0 < a,
        0 < step,
    ensures
        1 <= steps_to(a, step),
        (steps_to(a, step) - 1) * step < a <= steps_to(a, step) * step,
        steps_to(0, step) == 0,
{
    lemma_steps_to(a, step);
    lemma_steps_to(0, step);
    assert((steps_to(a, step) - 1) * step < a);
    if steps_to(0, step) > 0 {
        assert(0 * step < 0);
    }
}

/// Tile `k` starts `k` steps from the start of the axis, or where the last tile that fits
/// starts, whichever comes first.
pub proof fn law_tiles_are_a_step_apart(len: int, tile: int, step: int, k: int)
    requires
        0 <= tile,
        0 < len <= u32::MAX,
        0 < step,
        0 <= k < tile_positions_on(len, tile, step).len(),
    ensures
        k * step <= len - tile ==> tile_positions_on(len, tile, step)[k] == k * step,
        k * step >= len - tile && tile <= len ==> tile_positions_on(len, tile, step)[k] == len - tile,
        len <= tile ==> tile_positions_on(len, tile, step)[k] == 0,
{
    assert(0 <= k * step) by (nonlinear_arith)
        requires
            0 <= k,
            0 < step,
    ;
}

/// Each step that starts inside the axis has its tile: it starts there, or where the last tile
/// that fits starts.
pub proof fn law_every_step_has_a_tile(len: int, tile: int, step: int, j: int)
    requires
        0 <= tile,
        0 < len <= u32::MAX,
        0 < step,
        0 <= j,
        j * step < len,
    ensures
        j * step <= len - tile ==> tile_positions_on(len, tile, step).contains((j * step) as u32),
        j * step >= len - tile && tile <= len ==> tile_positions_on(len, tile, step).contains(
            (len - tile) as u32,
        ),
        len <= tile ==> tile_positions_on(len, tile, step).contains(0),
{
    let positions = tile_positions_on(len, tile, step);
    let last = last_position(len, tile);
    let inner = steps_to(last, step);
    lemma_steps_to(last, step);
    if j < inner {
        assert(positions[j] == j * step);
    } else {
        assert(inner * step <= j * step) by (nonlinear_arith)
            requires
                inner <= j,
                0 < step,
        ;
        assert(positions[inner] == last);
    }
}

/// No tile is left out on an axis that has pixels, and none is planned on one that has none.
pub proof fn law_axis_with_pixels_has_tiles(len: int, tile: int, step: int)
    requires
        0 <= tile,
        0 <= len <= u32::MAX,
        0 < step,
    ensures
        tile_positions_on(len, tile, step).len() == 0 <==> len == 0,
{
    if len > 0 {
        assert(0 * step == 0);
        law_every_step_has_a_tile(len, tile, step, 0);
    }
}

/// Neighbouring tiles are planned to overlap by a quarter of the model's width, rounded down,
/// and the rest of it is the distance between them.
pub proof fn law_tiles_overlap_by_a_quarter(model_w: int)
    requires
        0 <= model_w,
    ensures
        overlap_of(model_w) * 4 <= model_w < overlap_of(model_w) * 4 + 4,
        step_of(model_w) + overlap_of(model_w) == model_w,
{
}

/// A weight is the largest number that exceeds neither the distance to one of the two ends of
/// the tile nor the overlap; where that is 0, it is 1.
pub proof fn law_weight_is_the_distance_to_the_nearer_end(p: int, dim: int, overlap: int, m: int)
    requires
        0 <= p < dim,
        0 <= overlap,
    ensures
        1 <= overlap_weight(p, dim, overlap),
        overlap_weight(p, dim, overlap) > 1 ==> {
            &&& overlap_weight(p, dim, overlap) <= p
            &&& overlap_weight(p, dim, overlap) <= dim - 1 - p
            &&& overlap_weight(p, dim, overlap) <= overlap
        },
        m <= p && m <= dim - 1 - p && m <= overlap ==> m <= overlap_weight(p, dim, overlap),
{
}

/// What pixel (`px`, `py`) of a tile contributes: it goes to the pixel of the image that it
/// covers, with the level of the tile's mask there, and with the largest weight that exceeds
/// neither the distance to one of the four sides of the tile nor the overlap, or 1 where that is
/// 0.
pub proof fn law_contribution_of_a_pixel(
    levels: Seq<u8>,
    mw: int,
    mh: int,
    x: int,
    y: int,
    img_w: int,
    img_h: int,
    overlap: int,
    px: int,
    py: int,
    m: int,
)
    requires
        0 <= x,
        0 <= y,
        0 <= px < mw,
        0 <= py < mh,
        x + mw <= img_w <= u32::MAX,
        y + mh <= img_h,
        img_w * img_h <= usize::MAX,
        0 <= overlap <= u32::MAX,
    ensures
        contributions_of(levels, mw, mh, x, y, img_w, overlap).len() == mw * mh,
        0 <= py * mw + px < mw * mh,
        ({
            let c = contributions_of(levels, mw, mh, x, y, img_w, overlap)[py * mw + px];
            &&& c.index == (y + py) * img_w + (x + px)
            &&& c.level == levels[py * mw + px]
            &&& 1 <= c.weight
            &&& c.weight > 1 ==> c.weight <= px && c.weight <= mw - 1 - px && c.weight <= py
                && c.weight <= mh - 1 - py && c.weight <= overlap
            &&& m <= px && m <= mw - 1 - px && m <= py && m <= mh - 1 - py && m <= overlap ==> m
                <= c.weight
        }),
{
    lemma_offset_bound(px, py, mw, mh);
    lemma_offset_join(px, py, mw);
    lemma_offset_bound(x + px, y + py, img_w, img_h);
    law_weight_is_the_distance_to_the_nearer_end(px, mw, overlap, m);
    law_weight_is_the_distance_to_the_nearer_end(py, mh, overlap, m);
}

} // verus!
