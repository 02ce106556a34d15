//! The removal of the background of one picture, step by step.
//!
//! A removal asks for the mask of one region of the picture after the other. Whoever
//! runs the model hands each mask back, and the removal says what to do next: a small
//! picture, or one that is not to be tiled, needs one mask only; otherwise the mask of
//! the whole picture comes first, and the masks of the tiles follow.

use vstd::prelude::*;
use crate::arith::{
    lemma_area_monotone, lemma_offset_bound, lemma_offset_join, lemma_offset_split,
};
use crate::calibrate::{
    calibrate_to_global, calibrated, law_calibrated_level_is_shifted_by_the_mean_drift,
    law_level_is_kept_where_the_corners_agree, level_at,
};
use crate::enhance::{enhance_alpha, enhanced, AlphaCurve};
use crate::raster::{
    alpha_replaced, gray_window, law_alpha_replaced_keeps_the_colours,
    law_window_is_a_part_of_the_mask, law_window_is_a_part_of_the_picture, rgba_window, GrayImage,
    RgbaImage,
};
use crate::resample::{
    can_resize, lanczos3_resampled, lanczos3_result, resizable, resize_lanczos3,
};
use crate::tiling::{
    contributions_of, law_contribution_of_a_pixel, law_contributions_stay_in_the_image,
    law_covered_pixel_gets_a_contribution, law_every_step_has_a_tile, law_no_step_is_wasted,
    law_tiles_are_a_step_apart, law_tiles_ascend, law_tiles_cover_the_axis, law_tiles_fit,
    lemma_tile_count_bound, overlap_of, step_of, steps_to, tile_contributions, tile_positions,
    tile_positions_on, Contribution,
};

verus! {

/// The size of the blocks between whose corners a tile is calibrated.
pub const BLOCK_SIZE: u32 = 8;

/// The bytes of a picture whose alpha channel is a mask of the same size, sharpened by
/// a tone curve.
pub open spec fn masked(picture: Seq<u8>, mask: Seq<u8>, curve: Seq<u8>) -> Seq<u8> {
    alpha_replaced(picture, enhanced(mask, curve))
}

/// Puts a mask of the picture's size into its alpha channel.
pub fn apply_mask(picture: &RgbaImage, mask: GrayImage, curve: &AlphaCurve) -> (output: RgbaImage)
    requires
        picture.wf(),
        mask.wf(),
        curve.wf(),
        mask.width == picture.width,
        mask.height == picture.height,
    ensures
        output.wf(),
        output.width == picture.width,
        output.height == picture.height,
        output.data@ == masked(picture.data@, mask.data@, curve.levels@),
{
    let mut sharpened: GrayImage = mask;
    enhance_alpha(&mut sharpened, curve);
    let mut output: RgbaImage = picture.duplicate();
    output.set_alpha(&sharpened.data);
    output
}

/// Whether `output` is what may become of a picture of `w` by `h` pixels for which the model
/// found a mask of `model_w` by `model_h` pixels: the mask is brought to the picture's size,
/// sharpened, and becomes the alpha channel.
pub open spec fn single_output(
    picture: Seq<u8>,
    w: u32,
    h: u32,
    mask: Seq<u8>,
    model_w: u32,
    model_h: u32,
    curve: Seq<u8>,
    output: Seq<u8>,
) -> bool {
    exists|upscaled: Seq<u8>| #[trigger]
        lanczos3_resampled(mask, model_w, model_h, w, h, upscaled) && output == masked(
            picture,
            upscaled,
            curve,
        )
}

/// Removes the background of a picture by the mask that the model found for it: the mask
/// is brought to the picture's size, sharpened, and becomes the alpha channel.
pub fn process_single(picture: &RgbaImage, mask: &GrayImage, curve: &AlphaCurve) -> (output:
    RgbaImage)
    requires
        picture.wf(),
        mask.wf(),
        curve.wf(),
        resizable(
            mask.width as int,
            mask.height as int,
            picture.width as int,
            picture.height as int,
        ),
    ensures
        output.wf(),
        output.width == picture.width,
        output.height == picture.height,
        single_output(
            picture.data@,
            picture.width,
            picture.height,
            mask.data@,
            mask.width,
            mask.height,
            curve.levels@,
            output.data@,
        ),
{
    let upscaled: GrayImage = resize_lanczos3(mask, picture.width, picture.height);
    assert(lanczos3_resampled(
        mask.data@,
        mask.width,
        mask.height,
        picture.width,
        picture.height,
        upscaled.data@,
    ));
    apply_mask(picture, upscaled, curve)
}

/// Whether a picture is cut into tiles: only where that was asked for, and where the
/// picture is at least as large as the model's input on both axes.
pub open spec fn is_tiled(tile: bool, w: int, h: int, model_w: int, model_h: int) -> bool {
    tile && !(w < model_w || h < model_h)
}

/// Pictures that can be cut into tiles: the model's input is not empty, unless there is
/// nothing to cut, the pixels of the picture can be counted, and so can the steps from
/// tile to tile and the pixels of a tile's side when it is filled up to whole blocks.
pub open spec fn tileable(w: int, h: int, model_w: int, model_h: int) -> bool {
    &&& w * h <= u32::MAX
    &&& w > 0 || h > 0 ==> model_w > 0
    &&& h > 0 ==> model_h > 0
    &&& w > 0 && h > 0 ==> model_w + BLOCK_SIZE - 1 <= u32::MAX
    &&& w > 0 && h > 0 ==> model_h + BLOCK_SIZE - 1 <= u32::MAX
    &&& w > 0 ==> steps_to(w, step_of(model_w)) * step_of(model_w) <= u32::MAX
    &&& h > 0 ==> steps_to(h, step_of(model_w)) * step_of(model_w) <= u32::MAX
}

/// Tells whether a picture can be cut into tiles.
pub fn can_tile(w: u32, h: u32, model_w: u32, model_h: u32) -> (result: bool)
    ensures
        result == tileable(w as int, h as int, model_w as int, model_h as int),
{
    proof {
        lemma_area_monotone(w as int, h as int, u32::MAX as int, u32::MAX as int);
    }
    let limit: u64 = u32::MAX as u64;
    if w as u64 * h as u64 > limit {
        return false;
    }
    if (w > 0 || h > 0) && model_w == 0 {
        return false;
    }
    if h > 0 && model_h == 0 {
        return false;
    }
    let longest: u32 = u32::MAX - (BLOCK_SIZE - 1);
    if w > 0 && h > 0 && (model_w > longest || model_h > longest) {
        return false;
    }
    let step: u32 = model_w - model_w / 4;
    (w == 0 || steps_fit(w, step)) && (h == 0 || steps_fit(h, step))
}

/// Whether the steps that reach `len` can be counted in pixels.
fn steps_fit(len: u32, step: u32) -> (result: bool)
    requires
        0 < step,
    ensures
        result == (steps_to(len as int, step as int) * step <= u32::MAX),
{
    let reach: u64 = len as u64 + step as u64 - 1;
    let count: u64 = reach / step as u64;
    proof {
        vstd::arithmetic::div_mod::lemma_fundamental_div_mod(reach as int, step as int);
        vstd::arithmetic::div_mod::lemma_mod_bound(reach as int, step as int);
        assert(step * count == count * step) by (nonlinear_arith);
    }
    count * step as u64 <= u32::MAX as u64
}

/// Pictures whose background can be removed: the mask of the whole picture can be brought
/// to its size, and a picture that is to be tiled can be cut.
pub open spec fn removable(w: int, h: int, tile: bool, model_w: int, model_h: int) -> bool {
    &&& resizable(model_w, model_h, w, h)
    &&& is_tiled(tile, w, h, model_w, model_h) ==> tileable(w, h, model_w, model_h)
}

/// Tells whether the background of a picture can be removed.
pub fn can_remove(w: u32, h: u32, tile: bool, model_dims: (u32, u32)) -> (result: bool)
    ensures
        result == removable(
            w as int,
            h as int,
            tile,
            model_dims.0 as int,
            model_dims.1 as int,
        ),
{
    let (model_w, model_h) = model_dims;
    let whole: bool = !tile || w < model_w || h < model_h;
    can_resize(model_w, model_h, w, h) && (whole || can_tile(w, h, model_w, model_h))
}

/// What a removal waits for.
#[derive(Debug, Clone, Copy, PartialEq, Eq)]
pub enum Stage {
    /// The mask of the whole picture, which will be its alpha channel.
    Whole,
    /// The mask of the whole picture, which the tiles will be calibrated against.
    Global,
    /// The mask of the tile with this number; tiles are numbered row by row.
    Tile(usize),
    /// The alpha channel that was blended from the contributions of the tiles.
    Blend,
    /// Nothing: the picture is the result.
    Done,
}

/// The removal of the background of one picture.
#[derive(Debug)]
pub struct Removal {
    /// The picture; in the end, the result.
    pub picture: RgbaImage,
    pub model_w: u32,
    pub model_h: u32,
    pub curve: AlphaCurve,
    pub stage: Stage,
    /// The columns at which the tiles start.
    pub columns: Vec<u32>,
    /// The rows at which the tiles start.
    pub rows: Vec<u32>,
    /// The mask of the whole picture, in the picture's size, once it is known.
    pub global: GrayImage,
}

/// The stage after the mask of the whole picture, or of a tile, when `next` is the number
/// of the next tile and there are `count` tiles.
pub open spec fn stage_at(next: int, count: int) -> Stage {
    if next < count {
        Stage::Tile(next as usize)
    } else {
        Stage::Blend
    }
}

impl Removal {
    /// The number of tiles.
    pub open spec fn tile_count(&self) -> int {
        (self.columns@.len() * self.rows@.len()) as int
    }

    /// The column at which tile `k` starts.
    pub open spec fn tile_x(&self, k: int) -> int {
        self.columns@[k % self.columns@.len() as int] as int
    }

    /// The row at which tile `k` starts.
    pub open spec fn tile_y(&self, k: int) -> int {
        self.rows@[k / self.columns@.len() as int] as int
    }

    /// The tiles are those of the plan for the picture's size.
    pub open spec fn planned(&self) -> bool {
        let w = self.picture.width as int;
        let h = self.picture.height as int;
        let step = step_of(self.model_w as int);
        &&& tileable(w, h, self.model_w as int, self.model_h as int)
        &&& self.model_w <= w
        &&& self.model_h <= h
        &&& self.columns@ == tile_positions_on(w, self.model_w as int, step)
        &&& self.rows@ == tile_positions_on(h, self.model_h as int, step)
        &&& self.tile_count() <= usize::MAX
    }

    /// The invariant of a removal.
    pub open spec fn wf(&self) -> bool {
        &&& self.picture.wf()
        &&& self.curve.wf()
        &&& resizable(
            self.model_w as int,
            self.model_h as int,
            self.picture.width as int,
            self.picture.height as int,
        )
        &&& match self.stage {
            Stage::Whole => true,
            Stage::Global => self.planned(),
            Stage::Tile(k) => {
                &&& self.planned()
                &&& k < self.tile_count()
                &&& self.global.wf()
                &&& self.global.width == self.picture.width
                &&& self.global.height == self.picture.height
            },
            Stage::Blend => self.planned(),
            Stage::Done => true,
        }
    }

    /// The number of masks that are still to come.
    pub open spec fn masks_to_come(&self) -> int {
        match self.stage {
            Stage::Whole => 1,
            Stage::Global => 1 + self.tile_count(),
            Stage::Tile(k) => self.tile_count() - k,
            Stage::Blend => 0,
            Stage::Done => 0,
        }
    }

    /// Everything but the stage, the mask of the whole picture and the picture's bytes is
    /// as in `other`.
    pub open spec fn same_plan(&self, other: &Removal) -> bool {
        &&& self.picture.width == other.picture.width
        &&& self.picture.height == other.picture.height
        &&& self.model_w == other.model_w
        &&& self.model_h == other.model_h
        &&& self.curve.levels@ == other.curve.levels@
        &&& self.columns@ == other.columns@
        &&& self.rows@ == other.rows@
    }

    /// The width, the height and the bytes of the region whose mask is needed next: a tile of the
    /// picture or all of it.
    pub open spec fn next_region(&self) -> (u32, u32, Seq<u8>) {
        match self.stage {
            Stage::Tile(k) => (self.model_w, self.model_h, self.tile_data(k as int)),
            _ => (self.picture.width, self.picture.height, self.picture.data@),
        }
    }

    /// The bytes of tile `k` of the picture.
    pub open spec fn tile_data(&self, k: int) -> Seq<u8> {
        rgba_window(
            self.picture.data@,
            self.picture.width as int,
            self.tile_x(k),
            self.tile_y(k),
            self.model_w as int,
            self.model_h as int,
        )
    }

    /// The sharpened, calibrated mask of tile `k`, when the model found `mask` for it and
    /// `global` for the whole picture, the latter in the picture's size.
    pub open spec fn tile_levels(&self, global: Seq<u8>, k: int, mask: Seq<u8>) -> Seq<u8> {
        let mw = self.model_w as int;
        let mh = self.model_h as int;
        enhanced(
            calibrated(
                mask,
                mw,
                mh,
                gray_window(
                    global,
                    self.picture.width as int,
                    self.tile_x(k),
                    self.tile_y(k),
                    mw,
                    mh,
                ),
                mw,
                BLOCK_SIZE as int,
            ),
            self.curve.levels@,
        )
    }

    /// What tile `k` contributes when `levels` is its calibrated and sharpened mask.
    pub open spec fn contributions(&self, k: int, levels: Seq<u8>) -> Seq<Contribution> {
        contributions_of(
            levels,
            self.model_w as int,
            self.model_h as int,
            self.tile_x(k),
            self.tile_y(k),
            self.picture.width as int,
            overlap_of(self.model_w as int),
        )
    }

    /// Whether the removal is the start of one for a picture: nothing has been asked for yet.
    pub open spec fn started(
        &self,
        picture: &RgbaImage,
        tile: bool,
        model_dims: (u32, u32),
        curve: &AlphaCurve,
    ) -> bool {
        let cut = is_tiled(
            tile,
            picture.width as int,
            picture.height as int,
            model_dims.0 as int,
            model_dims.1 as int,
        );
        &&& self.wf()
        &&& self.picture == *picture
        &&& self.model_w == model_dims.0
        &&& self.model_h == model_dims.1
        &&& self.curve == *curve
        &&& self.stage == (if cut {
            Stage::Global
        } else {
            Stage::Whole
        })
        &&& !cut ==> self.columns@.len() == 0 && self.rows@.len() == 0
    }

    /// Whether the removal becomes `after`, and `list` is contributed, when it takes the bytes
    /// `mask` of a mask of the model's size.
    pub open spec fn accepted(
        &self,
        mask: Seq<u8>,
        after: &Removal,
        list: Seq<Contribution>,
    ) -> bool {
        &&& after.wf()
        &&& after.same_plan(self)
        &&& after.masks_to_come() == self.masks_to_come() - 1
        &&& match self.stage {
            Stage::Whole => {
                &&& after.stage == Stage::Done
                &&& list.len() == 0
                &&& single_output(
                    self.picture.data@,
                    self.picture.width,
                    self.picture.height,
                    mask,
                    self.model_w,
                    self.model_h,
                    self.curve.levels@,
                    after.picture.data@,
                )
            },
            Stage::Global => {
                &&& after.stage == stage_at(0, self.tile_count())
                &&& list.len() == 0
                &&& after.picture == self.picture
                &&& after.global.width == self.picture.width
                &&& after.global.height == self.picture.height
                &&& lanczos3_resampled(
                    mask,
                    self.model_w,
                    self.model_h,
                    self.picture.width,
                    self.picture.height,
                    after.global.data@,
                )
            },
            Stage::Tile(k) => {
                &&& after.stage == stage_at(k + 1, self.tile_count())
                &&& after.picture == self.picture
                &&& after.global == self.global
                &&& list == self.contributions(
                    k as int,
                    self.tile_levels(self.global.data@, k as int, mask),
                )
            },
            _ => true,
        }
    }

    /// Whether the removal becomes `after` when it takes the blended alpha channel `alpha`.
    pub open spec fn blended(&self, alpha: Seq<u8>, after: &Removal) -> bool {
        &&& after.wf()
        &&& after.same_plan(self)
        &&& after.stage == Stage::Done
        &&& after.picture.data@ == alpha_replaced(self.picture.data@, alpha)
    }
}

/// Starts the removal of the background of a picture without tiles.
fn start_whole(picture: RgbaImage, model_dims: (u32, u32), curve: AlphaCurve) -> (removal: Removal)
    requires
        picture.wf(),
        curve.wf(),
        resizable(
            model_dims.0 as int,
            model_dims.1 as int,
            picture.width as int,
            picture.height as int,
        ),
    ensures
        removal.started(&picture, false, model_dims, &curve),
{
    Removal {
        picture,
        model_w: model_dims.0,
        model_h: model_dims.1,
        curve,
        stage: Stage::Whole,
        columns: Vec::new(),
        rows: Vec::new(),
        global: GrayImage { width: 0, height: 0, data: Vec::new() },
    }
}

/// Starts the removal of the background of a picture with tiles of the size of the
/// model's input. A picture that is smaller than a tile is not cut.
pub fn process_tiled(picture: RgbaImage, model_dims: (u32, u32), curve: AlphaCurve) -> (removal:
    Removal)
    requires
        picture.wf(),
        curve.wf(),
        removable(
            picture.width as int,
            picture.height as int,
            true,
            model_dims.0 as int,
            model_dims.1 as int,
        ),
    ensures
        removal.started(&picture, true, model_dims, &curve),
{
    let (model_w, model_h) = model_dims;
    if picture.width < model_w || picture.height < model_h {
        return start_whole(picture, model_dims, curve);
    }
    let overlap: u32 = model_w / 4;
    let step: u32 = model_w - overlap;
    let columns: Vec<u32> = tile_positions(picture.width, model_w, step);
    let rows: Vec<u32> = tile_positions(picture.height, model_h, step);
    proof {
        lemma_tile_count_bound(picture.width as int, model_w as int, step as int);
        lemma_tile_count_bound(picture.height as int, model_h as int, step as int);
        lemma_area_monotone(
            columns@.len() as int,
            rows@.len() as int,
            picture.width as int,
            picture.height as int,
        );
    }
    Removal {
        picture,
        model_w,
        model_h,
        curve,
        stage: Stage::Global,
        columns,
        rows,
        global: GrayImage { width: 0, height: 0, data: Vec::new() },
    }
}

/// Starts the removal of the background of a picture, with tiles where they are asked for
/// and the picture is large enough.
pub fn process_dynamic_image(
    picture: RgbaImage,
    tile: bool,
    model_dims: (u32, u32),
    curve: AlphaCurve,
) -> (removal: Removal)
    requires
        picture.wf(),
        curve.wf(),
        removable(
            picture.width as int,
            picture.height as int,
            tile,
            model_dims.0 as int,
            model_dims.1 as int,
        ),
    ensures
        removal.started(&picture, tile, model_dims, &curve),
{
    if tile {
        process_tiled(picture, model_dims, curve)
    } else {
        start_whole(picture, model_dims, curve)
    }
}

impl Removal {
    /// Where tile `k` of a planned removal lies.
    pub proof fn lemma_tile_inside(&self, k: int)
        requires
            self.planned(),
            0 <= k < self.tile_count(),
        ensures
            0 <= k % self.columns@.len() as int,
            k % (self.columns@.len() as int) < self.columns@.len(),
            0 <= k / self.columns@.len() as int,
            k / (self.columns@.len() as int) < self.rows@.len(),
            0 < self.columns@.len(),
            0 <= self.tile_x(k),
            self.tile_x(k) + self.model_w <= self.picture.width,
            0 <= self.tile_y(k),
            self.tile_y(k) + self.model_h <= self.picture.height,
            0 < self.model_w <= u32::MAX - (BLOCK_SIZE - 1),
            0 < self.model_h <= u32::MAX - (BLOCK_SIZE - 1),
    {
        let w = self.picture.width as int;
        let h = self.picture.height as int;
        let step = step_of(self.model_w as int);
        lemma_offset_split(k, self.columns@.len() as int, self.rows@.len() as int);
        law_tiles_fit(w, self.model_w as int, step, k % self.columns@.len() as int);
        law_tiles_fit(h, self.model_h as int, step, k / self.columns@.len() as int);
    }

    /// The length by which neighbouring tiles are planned to overlap; the weights of
    /// contributions are parts of it.
    pub fn overlap(&self) -> (overlap: u32)
        ensures
            overlap == overlap_of(self.model_w as int),
    {
        self.model_w / 4
    }

    /// The region whose mask is needed next, if any: the whole picture or a tile of it.
    pub fn region(&self) -> (region: Option<RgbaImage>)
        requires
            self.wf(),
        ensures
            region is Some <==> self.masks_to_come() > 0,
            region matches Some(r) ==> r.wf(),
            region matches Some(r) ==> (r.width, r.height, r.data@) == self.next_region(),
    {
        match self.stage {
            Stage::Whole | Stage::Global => Some(self.picture.duplicate()),
            Stage::Tile(k) => {
                proof {
                    self.lemma_tile_inside(k as int);
                }
                let x: u32 = self.columns[k % self.columns.len()];
                let y: u32 = self.rows[k / self.columns.len()];
                Some(self.picture.crop(x, y, self.model_w, self.model_h))
            },
            Stage::Blend | Stage::Done => None,
        }
    }

    /// Takes the mask of the region that was asked for.
    ///
    /// The mask of a picture that is not tiled becomes its alpha channel, and the mask that
    /// tiles are calibrated against is kept in the picture's size. The mask of a tile is
    /// calibrated and sharpened, and what it contributes to the alpha channel is returned.
    pub fn accept_mask(&mut self, mask: GrayImage) -> (list: Vec<Contribution>)
        requires
            old(self).wf(),
            old(self).masks_to_come() > 0,
            mask.wf(),
            mask.width == old(self).model_w,
            mask.height == old(self).model_h,
        ensures
            old(self).accepted(mask.data@, final(self), list@),
    {
        match self.stage {
            Stage::Whole => {
                self.picture = process_single(&self.picture, &mask, &self.curve);
                self.stage = Stage::Done;
                Vec::new()
            },
            Stage::Global => {
                self.global = resize_lanczos3(&mask, self.picture.width, self.picture.height);
                if self.columns.len() * self.rows.len() > 0 {
                    self.stage = Stage::Tile(0);
                } else {
                    self.stage = Stage::Blend;
                }
                Vec::new()
            },
            Stage::Tile(k) => {
                proof {
                    self.lemma_tile_inside(k as int);
                }
                let x: u32 = self.columns[k % self.columns.len()];
                let y: u32 = self.rows[k / self.columns.len()];
                let surroundings: GrayImage = self.global.crop(x, y, self.model_w, self.model_h);
                let mut tile: GrayImage = calibrate_to_global(&mask, &surroundings, BLOCK_SIZE);
                enhance_alpha(&mut tile, &self.curve);
                let list: Vec<Contribution> = tile_contributions(
                    &tile,
                    x,
                    y,
                    self.picture.width,
                    self.picture.height,
                    self.overlap(),
                );
                if k + 1 < self.columns.len() * self.rows.len() {
                    self.stage = Stage::Tile(k + 1);
                } else {
                    self.stage = Stage::Blend;
                }
                list
            },
            Stage::Blend | Stage::Done => Vec::new(),
        }
    }

    /// Takes the alpha channel that was blended from the contributions of all tiles.
    pub fn accept_alpha(&mut self, alpha: Vec<u8>)
        requires
            old(self).wf(),
            old(self).stage == Stage::Blend,
            alpha@.len() == old(self).picture.width * old(self).picture.height,
        ensures
            old(self).blended(alpha@, final(self)),
    {
        self.picture.set_alpha(&alpha);
        self.stage = Stage::Done;
    }
}

/// Putting a mask into a picture leaves its colours as they are and makes its alpha channel
/// the sharpened mask.
pub proof fn law_masked_keeps_the_colours(
    picture: Seq<u8>,
    mask: Seq<u8>,
    curve: Seq<u8>,
    pixel: int,
    c: int,
)
    requires
        picture.len() == mask.len() * 4,
        0 <= pixel < mask.len(),
        0 <= c < 3,
    ensures
        masked(picture, mask, curve).len() == picture.len(),
        masked(picture, mask, curve)[pixel * 4 + c] == picture[pixel * 4 + c],
        masked(picture, mask, curve)[pixel * 4 + 3] == curve[mask[pixel] as int],
{
}

/// Where tiles are at least as high as the distance between them, every pixel of a tiled
/// picture lies in a tile.
pub proof fn law_every_pixel_is_in_a_tile(removal: &Removal, x: int, y: int)
    requires
        removal.planned(),
        step_of(removal.model_w as int) <= removal.model_h,
        0 <= x < removal.picture.width,
        0 <= y < removal.picture.height,
    ensures
        exists|k: int|
            0 <= k < removal.tile_count() && #[trigger] removal.tile_x(k) <= x < removal.tile_x(k)
                + removal.model_w && removal.tile_y(k) <= y < removal.tile_y(k) + removal.model_h,
{
    let w = removal.picture.width as int;
    let h = removal.picture.height as int;
    let mw = removal.model_w as int;
    let mh = removal.model_h as int;
    let step = step_of(mw);
    law_tiles_cover_the_axis(w, mw, step, x);
    law_tiles_cover_the_axis(h, mh, step, y);
    let c = choose|c: int|
        0 <= c < removal.columns@.len() && #[trigger] removal.columns@[c] <= x
            < removal.columns@[c] + mw;
    let r = choose|r: int|
        0 <= r < removal.rows@.len() && #[trigger] removal.rows@[r] <= y < removal.rows@[r] + mh;
    let n = removal.columns@.len() as int;
    let k = r * n + c;
    lemma_offset_bound(c, r, n, removal.rows@.len() as int);
    lemma_offset_join(c, r, n);
    assert(removal.tile_x(k) <= x < removal.tile_x(k) + mw);
}

/// The contributions of a tile, whatever the levels of its mask are, go to pixels of the
/// picture and have weights of at least 1.
pub proof fn law_tile_contributes_to_the_picture(
    removal: &Removal,
    k: int,
    levels: Seq<u8>,
    i: int,
)
    requires
        removal.planned(),
        0 <= k < removal.tile_count(),
        0 <= i < removal.model_w * removal.model_h,
    ensures
        removal.contributions(k, levels)[i].index < removal.picture.width * removal.picture.height,
        1 <= removal.contributions(k, levels)[i].weight,
{
    removal.lemma_tile_inside(k);
    law_contributions_stay_in_the_image(
        levels,
        removal.model_w as int,
        removal.model_h as int,
        removal.tile_x(k),
        removal.tile_y(k),
        removal.picture.width as int,
        removal.picture.height as int,
        overlap_of(removal.model_w as int),
        i,
    );
}

/// Where tiles are at least as high as the distance between them, every pixel of a tiled
/// picture gets a contribution with a weight of at least 1, so that its alpha is never left
/// open.
pub proof fn law_every_pixel_gets_a_contribution(
    removal: &Removal,
    levels: spec_fn(int) -> Seq<u8>,
    x: int,
    y: int,
)
    requires
        removal.planned(),
        step_of(removal.model_w as int) <= removal.model_h,
        0 <= x < removal.picture.width,
        0 <= y < removal.picture.height,
    ensures
        exists|k: int, i: int|
            0 <= k < removal.tile_count() && 0 <= i < removal.model_w * removal.model_h
                && #[trigger] removal.contributions(k, levels(k))[i].index == y
                * removal.picture.width + x && 1 <= removal.contributions(k, levels(k))[i].weight,
{
    law_every_pixel_is_in_a_tile(removal, x, y);
    let k = choose|k: int|
        0 <= k < removal.tile_count() && #[trigger] removal.tile_x(k) <= x < removal.tile_x(k)
            + removal.model_w && removal.tile_y(k) <= y < removal.tile_y(k) + removal.model_h;
    removal.lemma_tile_inside(k);
    let i = (y - removal.tile_y(k)) * removal.model_w + (x - removal.tile_x(k));
    law_covered_pixel_gets_a_contribution(
        levels(k),
        removal.model_w as int,
        removal.model_h as int,
        removal.tile_x(k),
        removal.tile_y(k),
        removal.picture.width as int,
        removal.picture.height as int,
        overlap_of(removal.model_w as int),
        x,
        y,
    );
    law_tile_contributes_to_the_picture(removal, k, levels(k), i);
    assert(removal.contributions(k, levels(k))[i].index == y * removal.picture.width + x);
}

/// Whatever the sizes of the mask and of the picture are, the output of a single pass has the
/// picture's colours, and the alpha of each pixel is what the tone curve makes of the level
/// that the Lanczos filter gives the pixel when it scales the mask to the picture's size.
pub proof fn law_single_output_is_the_sharpened_scaled_mask(
    picture: Seq<u8>,
    w: u32,
    h: u32,
    mask: Seq<u8>,
    model_w: u32,
    model_h: u32,
    curve: Seq<u8>,
    output: Seq<u8>,
)
    requires
        picture.len() == w * h * 4,
        single_output(picture, w, h, mask, model_w, model_h, curve, output),
    ensures
        output.len() == w * h * 4,
        exists|scaled: Seq<u8>| #[trigger]
            lanczos3_result(mask, model_w, model_h, w, h, scaled) && scaled.len() == w * h && (
            forall|p: int|
                0 <= p < w * h ==> output[p * 4] == picture[p * 4] && output[p * 4 + 1] == picture[p * 4
                    + 1] && output[p * 4 + 2] == picture[p * 4 + 2] && output[p * 4 + 3]
                    == curve[#[trigger] scaled[p] as int]),
{
    let scaled = choose|scaled: Seq<u8>| #[trigger]
        lanczos3_resampled(mask, model_w, model_h, w, h, scaled) && output == masked(
            picture,
            scaled,
            curve,
        );
    assert(lanczos3_result(mask, model_w, model_h, w, h, scaled));
    assert forall|p: int| 0 <= p < w * h implies output[p * 4] == picture[p * 4] && output[p * 4 + 1]
        == picture[p * 4 + 1] && output[p * 4 + 2] == picture[p * 4 + 2] && output[p * 4 + 3]
        == curve[#[trigger] scaled[p] as int] by {
        law_masked_keeps_the_colours(picture, scaled, curve, p, 0);
        law_masked_keeps_the_colours(picture, scaled, curve, p, 1);
        law_masked_keeps_the_colours(picture, scaled, curve, p, 2);
    }
}

/// Everything that the filter may give for the mask, once it is sharpened, is an output of a
/// single pass.
pub proof fn law_every_scaled_mask_gives_an_output(
    picture: Seq<u8>,
    w: u32,
    h: u32,
    mask: Seq<u8>,
    model_w: u32,
    model_h: u32,
    curve: Seq<u8>,
    scaled: Seq<u8>,
    output: Seq<u8>,
)
    requires
        picture.len() == w * h * 4,
        output.len() == w * h * 4,
        lanczos3_resampled(mask, model_w, model_h, w, h, scaled),
        forall|p: int|
            0 <= p < w * h ==> output[p * 4] == picture[p * 4] && output[p * 4 + 1] == picture[p * 4
                + 1] && output[p * 4 + 2] == picture[p * 4 + 2] && output[p * 4 + 3]
                == curve[#[trigger] scaled[p] as int],
    ensures
        single_output(picture, w, h, mask, model_w, model_h, curve, output),
{
    assert forall|i: int| 0 <= i < output.len() implies output[i] == masked(
        picture,
        scaled,
        curve,
    )[i] by {
        let p = i / 4;
        assert(0 <= p < w * h);
        assert(output[p * 4 + 3] == curve[scaled[p] as int]);
        assert(i == p * 4 || i == p * 4 + 1 || i == p * 4 + 2 || i == p * 4 + 3);
    }
    assert(output =~= masked(picture, scaled, curve));
}

/// A mask of the picture's size is not scaled: the alpha of each pixel is what the tone curve
/// makes of the mask's own level. A curve that is 0 everywhere makes any picture transparent.
pub proof fn law_alpha_of_a_single_pass(
    picture: Seq<u8>,
    w: u32,
    h: u32,
    mask: Seq<u8>,
    model_w: u32,
    model_h: u32,
    curve: Seq<u8>,
    output: Seq<u8>,
    p: int,
)
    requires
        picture.len() == w * h * 4,
        single_output(picture, w, h, mask, model_w, model_h, curve, output),
        0 <= p < w * h,
    ensures
        0 < w && 0 < h && model_w == w && model_h == h ==> output[p * 4 + 3] == curve[mask[p] as int],
        model_w == 0 || model_h == 0 ==> output[p * 4 + 3] == curve[0],
        (forall|l: int| 0 <= l < 256 ==> #[trigger] curve[l] == 0) ==> output[p * 4 + 3] == 0,
{
    let scaled = choose|scaled: Seq<u8>| #[trigger]
        lanczos3_resampled(mask, model_w, model_h, w, h, scaled) && output == masked(
            picture,
            scaled,
            curve,
        );
    law_masked_keeps_the_colours(picture, scaled, curve, p, 0);
    let l = scaled[p] as int;
    assert(output[p * 4 + 3] == curve[l]);
}

/// The tiles of a plan are numbered row by row. They start a whole number of steps from the left
/// and from the upper side of the picture, or where the last tile that fits starts; a step is
/// the model's width without a quarter of it, on both axes.
pub proof fn law_where_tiles_start(removal: &Removal, c: int, r: int)
    requires
        removal.planned(),
        0 <= c < removal.columns@.len(),
        0 <= r < removal.rows@.len(),
    ensures
        removal.tile_count() == removal.columns@.len() * removal.rows@.len(),
        0 <= r * removal.columns@.len() + c < removal.tile_count(),
        ({
            let k = r * removal.columns@.len() + c;
            let step = removal.model_w - removal.model_w / 4;
            let last_x = removal.picture.width - removal.model_w;
            let last_y = removal.picture.height - removal.model_h;
            &&& removal.tile_x(k) == (if c * step < last_x {
                c * step
            } else {
                last_x
            })
            &&& removal.tile_y(k) == (if r * step < last_y {
                r * step
            } else {
                last_y
            })
        }),
{
    let n = removal.columns@.len() as int;
    lemma_offset_bound(c, r, n, removal.rows@.len() as int);
    lemma_offset_join(c, r, n);
    let k = r * n + c;
    removal.lemma_tile_inside(k);
    let step = step_of(removal.model_w as int);
    law_tiles_are_a_step_apart(removal.picture.width as int, removal.model_w as int, step, c);
    law_tiles_are_a_step_apart(removal.picture.height as int, removal.model_h as int, step, r);
}

/// Each step that starts inside the picture has a column, or a row, of tiles, and no two columns,
/// or rows, are the same.
pub proof fn law_steps_have_their_tiles(removal: &Removal, j: int)
    requires
        removal.planned(),
        0 < removal.model_w,
        0 < removal.model_h,
        0 <= j,
    ensures
        ({
            let step = removal.model_w - removal.model_w / 4;
            let last_x = removal.picture.width - removal.model_w;
            let last_y = removal.picture.height - removal.model_h;
            &&& j * step < removal.picture.width ==> removal.columns@.contains(
                (if j * step < last_x {
                    j * step
                } else {
                    last_x
                }) as u32,
            )
            &&& j * step < removal.picture.height ==> removal.rows@.contains(
                (if j * step < last_y {
                    j * step
                } else {
                    last_y
                }) as u32,
            )
        }),
        forall|a: int, b: int|
            0 <= a < b < removal.columns@.len() ==> #[trigger] removal.columns@[a]
                < #[trigger] removal.columns@[b],
        forall|a: int, b: int|
            0 <= a < b < removal.rows@.len() ==> #[trigger] removal.rows@[a]
                < #[trigger] removal.rows@[b],
{
    let w = removal.picture.width as int;
    let h = removal.picture.height as int;
    let mw = removal.model_w as int;
    let mh = removal.model_h as int;
    let step = step_of(mw);
    if j * step < w {
        law_every_step_has_a_tile(w, mw, step, j);
    }
    if j * step < h {
        law_every_step_has_a_tile(h, mh, step, j);
    }
    law_tiles_ascend(w, mw, step);
    law_tiles_ascend(h, mh, step);
}

/// The region that is asked for next: of a tile each pixel is that of the picture that lies as
/// far to the right of, and below, the place where the tile starts; otherwise it is the picture.
pub proof fn law_next_region_is_a_part_of_the_picture(
    removal: &Removal,
    px: int,
    py: int,
    channel: int,
)
    requires
        removal.wf(),
        0 <= px < removal.model_w,
        0 <= py < removal.model_h,
        0 <= channel < 4,
    ensures
        removal.stage == Stage::Whole || removal.stage == Stage::Global ==> removal.next_region() == (
            removal.picture.width,
            removal.picture.height,
            removal.picture.data@,
        ),
        removal.stage matches Stage::Tile(k) ==> {
            let (w, h, data) = removal.next_region();
            &&& w == removal.model_w
            &&& h == removal.model_h
            &&& data.len() == w * h * 4
            &&& 0 <= (py * w + px) * 4 + channel < data.len()
            &&& data[(py * w + px) * 4 + channel] == removal.picture.data@[((removal.tile_y(k as int)
                + py) * removal.picture.width + (removal.tile_x(k as int) + px)) * 4 + channel]
        },
{
    if let Stage::Tile(k) = removal.stage {
        law_window_is_a_part_of_the_picture(
            removal.picture.data@,
            removal.picture.width as int,
            removal.tile_x(k as int),
            removal.tile_y(k as int),
            removal.model_w as int,
            removal.model_h as int,
            px,
            py,
            channel,
        );
    }
}

/// The level that tile `k` has for its pixel in column `c * 8 + fx` and row `r * 8 + fy`, for
/// models of every size. The differences between the mask of the whole picture and the tile's
/// own mask at the four grid points around the pixel, which are 8 pixels apart or at the last
/// column or row of the tile, are weighed by how near the pixel is to each of them. Their mean
/// is added to the level of the tile's own mask, the sum is limited to 0..255 and rounded
/// down, and the tone curve is applied to it.
pub proof fn law_tile_level_is_its_own_level_without_drift(
    removal: &Removal,
    global: Seq<u8>,
    k: int,
    mask: Seq<u8>,
    c: int,
    r: int,
    fx: int,
    fy: int,
)
    requires
        removal.planned(),
        0 <= k < removal.tile_count(),
        0 <= c,
        0 <= r,
        0 <= fx < 8,
        0 <= fy < 8,
        c * 8 + fx < removal.model_w,
        r * 8 + fy < removal.model_h,
    ensures
        removal.tile_levels(global, k, mask).len() == removal.model_w * removal.model_h,
        0 <= (r * 8 + fy) * removal.model_w + (c * 8 + fx) < removal.model_w * removal.model_h,
        ({
            let mw = removal.model_w as int;
            let mh = removal.model_h as int;
            let w = removal.picture.width as int;
            let tx = removal.tile_x(k);
            let ty = removal.tile_y(k);
            let x0 = c * 8;
            let y0 = r * 8;
            let x1 = if c * 8 + 8 < mw - 1 {
                c * 8 + 8
            } else {
                mw - 1
            };
            let y1 = if r * 8 + 8 < mh - 1 {
                r * 8 + 8
            } else {
                mh - 1
            };
            let d00 = global[(ty + y0) * w + (tx + x0)] - mask[y0 * mw + x0];
            let d10 = global[(ty + y0) * w + (tx + x1)] - mask[y0 * mw + x1];
            let d01 = global[(ty + y1) * w + (tx + x0)] - mask[y1 * mw + x0];
            let d11 = global[(ty + y1) * w + (tx + x1)] - mask[y1 * mw + x1];
            let own = mask[(y0 + fy) * mw + (x0 + fx)];
            let sum = own * 64 + (d00 * ((8 - fx) * (8 - fy)) + d10 * (fx * (8 - fy)) + d01 * ((8 - fx)
                * fy) + d11 * (fx * fy));
            let level = removal.tile_levels(global, k, mask)[(y0 + fy) * mw + (x0 + fx)];
            &&& sum < 0 ==> level == removal.curve.levels@[0]
            &&& 0 <= sum <= 16320 ==> level == removal.curve.levels@[sum / 64]
            &&& sum > 16320 ==> level == removal.curve.levels@[255]
        }),
{
    let mw = removal.model_w as int;
    let mh = removal.model_h as int;
    let w = removal.picture.width as int;
    let tx = removal.tile_x(k);
    let ty = removal.tile_y(k);
    removal.lemma_tile_inside(k);
    let part = gray_window(global, w, tx, ty, mw, mh);
    law_calibrated_level_is_shifted_by_the_mean_drift(mask, mw, mh, part, mw, 8, c, r, fx, fy);
    let x0 = c * 8;
    let y0 = r * 8;
    let x1 = if c * 8 + 8 < mw - 1 {
        c * 8 + 8
    } else {
        mw - 1
    };
    let y1 = if r * 8 + 8 < mh - 1 {
        r * 8 + 8
    } else {
        mh - 1
    };
    law_window_is_a_part_of_the_mask(global, w, tx, ty, mw, mh, x0, y0);
    law_window_is_a_part_of_the_mask(global, w, tx, ty, mw, mh, x1, y0);
    law_window_is_a_part_of_the_mask(global, w, tx, ty, mw, mh, x0, y1);
    law_window_is_a_part_of_the_mask(global, w, tx, ty, mw, mh, x1, y1);
}

/// A tile's own mask decides its levels: where the mask of the whole picture agrees with it at
/// the grid points around a pixel, the level of the pixel is what the tone curve makes of the
/// tile's own level.
pub proof fn law_tile_keeps_its_own_levels(
    removal: &Removal,
    global: Seq<u8>,
    k: int,
    mask: Seq<u8>,
    px: int,
    py: int,
)
    requires
        removal.planned(),
        0 <= k < removal.tile_count(),
        0 <= px < removal.model_w,
        0 <= py < removal.model_h,
        forall|u: int, v: int|
            px - 8 < u <= px + 8 && py - 8 < v <= py + 8 && 0 <= u < removal.model_w && 0 <= v
                < removal.model_h && (u % 8 == 0 || u == removal.model_w - 1) && (v % 8 == 0 || v
                == removal.model_h - 1) ==> global[(removal.tile_y(k) + v) * removal.picture.width + (
            removal.tile_x(k) + u)] == #[trigger] level_at(mask, removal.model_w as int, u, v),
    ensures
        removal.tile_levels(global, k, mask)[py * removal.model_w + px]
            == removal.curve.levels@[mask[py * removal.model_w + px] as int],
{
    let mw = removal.model_w as int;
    let mh = removal.model_h as int;
    let w = removal.picture.width as int;
    let tx = removal.tile_x(k);
    let ty = removal.tile_y(k);
    removal.lemma_tile_inside(k);
    let part = gray_window(global, w, tx, ty, mw, mh);
    assert forall|u: int, v: int|
        px - 8 < u <= px + 8 && py - 8 < v <= py + 8 && 0 <= u < mw && 0 <= v < mh && (u % 8 == 0 || u
            == mw - 1) && (v % 8 == 0 || v == mh - 1) implies part[v * mw + u] == #[trigger] level_at(
        mask,
        mw,
        u,
        v,
    ) by {
        law_window_is_a_part_of_the_mask(global, w, tx, ty, mw, mh, u, v);
    }
    law_level_is_kept_where_the_corners_agree(mask, mw, mh, part, mw, 8, px, py);
    lemma_offset_bound(px, py, mw, mh);
}

/// What the mask of a tile leads to: the picture and the mask of the whole picture stay as they
/// are, the next tile is asked for or, after the last, the blended alpha channel, and each
/// pixel of the tile contributes its sharpened, calibrated level to the pixel of the picture
/// that it covers. The weight is the largest number that exceeds neither the distance to a side
/// of the tile nor a quarter of the model's width, or 1 where that is 0.
pub proof fn law_tile_mask_is_contributed(
    before: &Removal,
    mask: Seq<u8>,
    after: &Removal,
    list: Seq<Contribution>,
    k: usize,
    c: int,
    r: int,
    fx: int,
    fy: int,
    m: int,
)
    requires
        before.wf(),
        before.stage == Stage::Tile(k),
        before.accepted(mask, after, list),
        0 <= c,
        0 <= r,
        0 <= fx < 8,
        0 <= fy < 8,
        c * 8 + fx < before.model_w,
        r * 8 + fy < before.model_h,
    ensures
        after.picture == before.picture,
        after.global == before.global,
        k + 1 < before.tile_count() ==> after.stage == Stage::Tile((k + 1) as usize),
        k + 1 == before.tile_count() ==> after.stage == Stage::Blend,
        list.len() == before.model_w * before.model_h,
        ({
            let mw = before.model_w as int;
            let mh = before.model_h as int;
            let w = before.picture.width as int;
            let global = before.global.data@;
            let tx = before.tile_x(k as int);
            let ty = before.tile_y(k as int);
            let x0 = c * 8;
            let y0 = r * 8;
            let x1 = if c * 8 + 8 < mw - 1 {
                c * 8 + 8
            } else {
                mw - 1
            };
            let y1 = if r * 8 + 8 < mh - 1 {
                r * 8 + 8
            } else {
                mh - 1
            };
            let d00 = global[(ty + y0) * w + (tx + x0)] - mask[y0 * mw + x0];
            let d10 = global[(ty + y0) * w + (tx + x1)] - mask[y0 * mw + x1];
            let d01 = global[(ty + y1) * w + (tx + x0)] - mask[y1 * mw + x0];
            let d11 = global[(ty + y1) * w + (tx + x1)] - mask[y1 * mw + x1];
            let px = x0 + fx;
            let py = y0 + fy;
            let sum = mask[py * mw + px] * 64 + (d00 * ((8 - fx) * (8 - fy)) + d10 * (fx * (8 - fy)) + d01
                * ((8 - fx) * fy) + d11 * (fx * fy));
            let item = list[py * mw + px];
            &&& item.index == (ty + py) * w + (tx + px)
            &&& sum < 0 ==> item.level == before.curve.levels@[0]
            &&& 0 <= sum <= 16320 ==> item.level == before.curve.levels@[sum / 64]
            &&& sum > 16320 ==> item.level == before.curve.levels@[255]
            &&& 1 <= item.weight
            &&& item.weight > 1 ==> item.weight <= px && item.weight <= mw - 1 - px && item.weight
                <= py && item.weight <= mh - 1 - py && item.weight <= mw / 4
            &&& m <= px && m <= mw - 1 - px && m <= py && m <= mh - 1 - py && m <= mw / 4 ==> m
                <= item.weight
        }),
{
    let global = before.global.data@;
    let levels = before.tile_levels(global, k as int, mask);
    before.lemma_tile_inside(k as int);
    law_tile_level_is_its_own_level_without_drift(before, global, k as int, mask, c, r, fx, fy);
    law_contribution_of_a_pixel(
        levels,
        before.model_w as int,
        before.model_h as int,
        before.tile_x(k as int),
        before.tile_y(k as int),
        before.picture.width as int,
        before.picture.height as int,
        overlap_of(before.model_w as int),
        c * 8 + fx,
        r * 8 + fy,
        m,
    );
}

/// What the mask of the whole picture leads to. Without tiles it ends the removal, and the
/// result is the output of a single pass. With tiles the picture stays as it is, the mask is
/// kept in a size to which the Lanczos filter scales it, the picture's, and the first tile is
/// asked for.
pub proof fn law_whole_mask_is_used(
    before: &Removal,
    mask: Seq<u8>,
    after: &Removal,
    list: Seq<Contribution>,
)
    requires
        before.wf(),
        before.accepted(mask, after, list),
    ensures
        before.stage == Stage::Whole ==> {
            &&& after.stage == Stage::Done
            &&& list.len() == 0
            &&& after.picture.width == before.picture.width
            &&& after.picture.height == before.picture.height
            &&& after.picture.data@.len() == before.picture.data@.len()
            &&& exists|scaled: Seq<u8>| #[trigger]
                lanczos3_result(
                    mask,
                    before.model_w,
                    before.model_h,
                    before.picture.width,
                    before.picture.height,
                    scaled,
                ) && scaled.len() == before.picture.width * before.picture.height && (forall|p: int|
                    0 <= p < scaled.len() ==> after.picture.data@[p * 4] == before.picture.data@[p * 4]
                        && after.picture.data@[p * 4 + 1] == before.picture.data@[p * 4 + 1]
                        && after.picture.data@[p * 4 + 2] == before.picture.data@[p * 4 + 2]
                        && after.picture.data@[p * 4 + 3]
                        == before.curve.levels@[#[trigger] scaled[p] as int])
        },
        before.stage == Stage::Global ==> {
            &&& list.len() == 0
            &&& after.picture == before.picture
            &&& after.global.width == before.picture.width
            &&& after.global.height == before.picture.height
            &&& lanczos3_result(
                mask,
                before.model_w,
                before.model_h,
                before.picture.width,
                before.picture.height,
                after.global.data@,
            )
            &&& before.columns@.len() > 0 && before.rows@.len() > 0 ==> after.stage == Stage::Tile(0)
            &&& before.columns@.len() == 0 || before.rows@.len() == 0 ==> after.stage == Stage::Blend
        },
{
    if before.stage == Stage::Whole {
        law_single_output_is_the_sharpened_scaled_mask(
            before.picture.data@,
            before.picture.width,
            before.picture.height,
            mask,
            before.model_w,
            before.model_h,
            before.curve.levels@,
            after.picture.data@,
        );
    }
    if before.stage == Stage::Global {
        let a = before.columns@.len() as int;
        let b = before.rows@.len() as int;
        assert(a > 0 && b > 0 ==> a * b > 0) by (nonlinear_arith);
        assert(a == 0 || b == 0 ==> a * b == 0) by (nonlinear_arith);
    }
}

/// The plan of a removal stays as it is from mask to mask, and each mask is asked for once.
pub proof fn law_plan_is_kept(
    before: &Removal,
    mask: Seq<u8>,
    after: &Removal,
    list: Seq<Contribution>,
)
    requires
        before.accepted(mask, after, list),
    ensures
        after.picture.width == before.picture.width,
        after.picture.height == before.picture.height,
        after.model_w == before.model_w,
        after.model_h == before.model_h,
        after.curve.levels@ == before.curve.levels@,
        after.columns@ == before.columns@,
        after.rows@ == before.rows@,
        before.stage == Stage::Whole ==> before.masks_to_come() == 1,
        before.stage == Stage::Global ==> before.masks_to_come() == 1 + before.columns@.len()
            * before.rows@.len(),
        before.stage matches Stage::Tile(k) ==> before.masks_to_come() == before.columns@.len()
            * before.rows@.len() - k,
        after.stage == Stage::Blend || after.stage == Stage::Done ==> after.masks_to_come() == 0,
{
}

/// The blended alpha channel becomes that of the picture, whose colours stay as they are, and
/// ends the removal.
pub proof fn law_blended_alpha_is_put_into_the_picture(
    before: &Removal,
    alpha: Seq<u8>,
    after: &Removal,
    p: int,
)
    requires
        before.wf(),
        alpha.len() == before.picture.width * before.picture.height,
        before.blended(alpha, after),
        0 <= p < alpha.len(),
    ensures
        after.stage == Stage::Done,
        after.picture.width == before.picture.width,
        after.picture.height == before.picture.height,
        after.picture.data@.len() == before.picture.data@.len(),
        after.picture.data@[p * 4] == before.picture.data@[p * 4],
        after.picture.data@[p * 4 + 1] == before.picture.data@[p * 4 + 1],
        after.picture.data@[p * 4 + 2] == before.picture.data@[p * 4 + 2],
        after.picture.data@[p * 4 + 3] == alpha[p],
{
    law_alpha_replaced_keeps_the_colours(before.picture.data@, alpha, p, 0);
    law_alpha_replaced_keeps_the_colours(before.picture.data@, alpha, p, 1);
    law_alpha_replaced_keeps_the_colours(before.picture.data@, alpha, p, 2);
}

/// How a removal starts: with the picture as it is, and with tiles where they are asked for and
/// the picture is at least as wide and as high as the model's input.
pub proof fn law_how_a_removal_starts(
    start: &Removal,
    picture: &RgbaImage,
    tile: bool,
    model_dims: (u32, u32),
    curve: &AlphaCurve,
)
    requires
        start.started(picture, tile, model_dims, curve),
    ensures
        start.picture == *picture,
        start.curve == *curve,
        start.model_w == model_dims.0,
        start.model_h == model_dims.1,
        tile && picture.width >= model_dims.0 && picture.height >= model_dims.1 ==> start.stage
            == Stage::Global && start.planned(),
        !tile || picture.width < model_dims.0 || picture.height < model_dims.1 ==> start.stage
            == Stage::Whole,
        start.next_region() == (picture.width, picture.height, picture.data@),
{
}

/// Which pictures a background can be removed from, written out.
pub proof fn law_pictures_that_can_be_processed(
    w: int,
    h: int,
    tile: bool,
    model_w: int,
    model_h: int,
)
    requires
        0 < w <= u32::MAX,
        0 < h <= u32::MAX,
        0 < model_w <= u32::MAX,
        0 < model_h <= u32::MAX,
        w + model_w <= u32::MAX,
        h + model_w <= u32::MAX,
        h + model_h <= u32::MAX,
        w * h <= u32::MAX,
    ensures
        removable(w, h, tile, model_w, model_h) <==> resizable(model_w, model_h, w, h),
{
    let step = step_of(model_w);
    law_no_step_is_wasted(w, step);
    law_no_step_is_wasted(h, step);
    let a = steps_to(w, step);
    let b = steps_to(h, step);
    assert((a - 1) * step == a * step - step && (b - 1) * step == b * step - step)
        by (nonlinear_arith);
}

/// Which pictures can be cut into tiles, and which can be processed at all, written out.
pub proof fn law_pictures_that_can_be_tiled(
    w: int,
    h: int,
    tile: bool,
    model_w: int,
    model_h: int,
)
    ensures
        ({
            let step = model_w - model_w / 4;
            &&& tileable(w, h, model_w, model_h) <==> {
                &&& w * h <= u32::MAX
                &&& w > 0 || h > 0 ==> model_w > 0
                &&& h > 0 ==> model_h > 0
                &&& w > 0 && h > 0 ==> model_w + 7 <= u32::MAX && model_h + 7 <= u32::MAX
                &&& w > 0 ==> steps_to(w, step) * step <= u32::MAX
                &&& h > 0 ==> steps_to(h, step) * step <= u32::MAX
            }
            &&& tile && w >= model_w && h >= model_h ==> (removable(w, h, tile, model_w, model_h) <==> {
                &&& resizable(model_w, model_h, w, h)
                &&& tileable(w, h, model_w, model_h)
            })
            &&& !(tile && w >= model_w && h >= model_h) ==> (removable(w, h, tile, model_w, model_h)
                <==> resizable(model_w, model_h, w, h))
        }),
{
}

} // verus!
