//! Resampling of pictures and masks by the `image` crate.

use vstd::prelude::*;
use crate::arith::lemma_area_monotone;
use crate::raster::{channel_plane, GrayImage, RgbaImage};

verus! {

/// The longest side that may be brought to a side that is as long or longer, and the
/// longest side that a longer one may be brought to.
///
/// The filters work with single precision coordinates. Up to this length the coordinate of a
/// pixel of the result never leaves the source by a whole pixel, so that a source pixel of
/// positive weight is always found; a side of 5,732,883 pixels that is brought to 18,161,641
/// already ends in a pixel whose weights are all 0, which the `image` crate panics on.
pub const MAX_SHORTER_SIDE: u32 = 4_194_304;

/// Sides that can be resampled: one of the two is no longer than `MAX_SHORTER_SIDE`.
pub open spec fn side_resizable(side: int, new_side: int) -> bool {
    side <= MAX_SHORTER_SIDE || new_side <= MAX_SHORTER_SIDE
}

/// Whether an image is filtered to get another size: an image without pixels is not, nor is
/// one that has the wanted size already.
pub open spec fn is_filtered(w: int, h: int, new_w: int, new_h: int) -> bool {
    0 < w && 0 < h && !(w == new_w && h == new_h)
}

/// Sizes that can be resampled: the result fits into memory, and where the image is filtered,
/// so do the intermediate image, which has four single precision channels, and the weights
/// for one pixel, and both sides can be resampled.
pub open spec fn resizable(w: int, h: int, new_w: int, new_h: int) -> bool {
    &&& new_w * new_h * 4 <= isize::MAX
    &&& is_filtered(w, h, new_w, new_h) ==> {
        &&& side_resizable(w, new_w)
        &&& side_resizable(h, new_h)
        &&& w * new_h * 16 <= isize::MAX
        &&& w * 16 <= isize::MAX
        &&& h * 16 <= isize::MAX
    }
}

/// Tells whether an image can be resampled.
pub fn can_resize(w: u32, h: u32, new_w: u32, new_h: u32) -> (result: bool)
    ensures
        result == resizable(w as int, h as int, new_w as int, new_h as int),
{
    proof {
        lemma_area_monotone(w as int, new_h as int, u32::MAX as int, u32::MAX as int);
        lemma_area_monotone(new_w as int, new_h as int, u32::MAX as int, u32::MAX as int);
    }
    let limit: u128 = isize::MAX as u128;
    let between: u128 = w as u128 * new_h as u128;
    let result: u128 = new_w as u128 * new_h as u128;
    if result * 4 > limit {
        return false;
    }
    if w == 0 || h == 0 || (w == new_w && h == new_h) {
        return true;
    }
    (w <= MAX_SHORTER_SIDE || new_w <= MAX_SHORTER_SIDE) && (h <= MAX_SHORTER_SIDE || new_h
        <= MAX_SHORTER_SIDE) && between * 16 <= limit && w as u128 * 16 <= limit && h as u128 * 16
        <= limit
}

/// Names the bytes that `image::imageops::resize` makes with the triangle filter out of the
/// bytes of one channel, one byte per pixel. The filter treats the channels alike and each by
/// itself.
pub uninterp spec fn triangle_resized_plane(
    plane: Seq<u8>,
    w: u32,
    h: u32,
    new_w: u32,
    new_h: u32,
) -> Seq<u8>;

/// The bytes of an RGBA picture that was resampled with the triangle filter.
pub open spec fn triangle_resized(
    data: Seq<u8>,
    w: u32,
    h: u32,
    new_w: u32,
    new_h: u32,
) -> Seq<u8> {
    Seq::new(
        (new_w * new_h * 4) as nat,
        |i: int| triangle_resized_plane(channel_plane(data, i % 4), w, h, new_w, new_h)[i / 4],
    )
}

/// Names the masks that `image::imageops::resize` may make with the Lanczos filter.
/// The filter calls the sine of the platform, whose last digits are not fixed, so
/// more than one mask may be a result.
pub uninterp spec fn lanczos3_result(
    data: Seq<u8>,
    w: u32,
    h: u32,
    new_w: u32,
    new_h: u32,
    result: Seq<u8>,
) -> bool;

/// What is known of a mask that was resampled with the Lanczos filter: its size,
/// that a mask of the wanted size is only copied, and that nothing but zeros comes
/// out of an empty mask.
pub open spec fn lanczos3_resampled(
    data: Seq<u8>,
    w: u32,
    h: u32,
    new_w: u32,
    new_h: u32,
    result: Seq<u8>,
) -> bool {
    &&& lanczos3_result(data, w, h, new_w, new_h, result)
    &&& result.len() == new_w * new_h
    &&& 0 < w && 0 < h && w == new_w && h == new_h ==> result == data
    &&& w == 0 || h == 0 ==> forall|i: int| 0 <= i < result.len() ==> result[i] == 0
}

/// Calls `image::imageops::resize` on an RGBA picture with the triangle filter.
///
/// Claimed of it: the result has the wanted size, and the bytes of each of its channels are a
/// function of the bytes of that channel of the picture and of the two sizes, the same
/// function for all channels; a picture that has the wanted size is copied; an empty picture
/// gives a picture of zeros.
#[verifier::external_body]
pub(crate) fn resize_triangle(picture: &RgbaImage, new_w: u32, new_h: u32) -> (result: RgbaImage)
    requires
        picture.wf(),
        resizable(picture.width as int, picture.height as int, new_w as int, new_h as int),
    ensures
        result.wf(),
        result.width == new_w,
        result.height == new_h,
        forall|i: int|
            0 <= i < result.data@.len() ==> #[trigger] result.data@[i] == triangle_resized_plane(
                channel_plane(picture.data@, i % 4),
                picture.width,
                picture.height,
                new_w,
                new_h,
            )[i / 4],
        0 < picture.width && 0 < picture.height && picture.width == new_w && picture.height == new_h
            ==> result.data@ == picture.data@,
        picture.width == 0 || picture.height == 0 ==> forall|i: int|
            0 <= i < result.data@.len() ==> result.data@[i] == 0,
{
    let source = image::RgbaImage::from_raw(picture.width, picture.height, picture.data.clone());
    let filter = image::imageops::FilterType::Triangle;
    let resized = image::imageops::resize(&source.unwrap(), new_w, new_h, filter);
    RgbaImage { width: resized.width(), height: resized.height(), data: resized.into_raw() }
}

/// Calls `image::imageops::resize` on a mask with the Lanczos filter.
///
/// Claimed of it: the result has the wanted size and is one that the filter may make
/// of the mask; a mask that has the wanted size is copied; an empty mask gives a mask
/// of zeros.
#[verifier::external_body]
pub(crate) fn resize_lanczos3(mask: &GrayImage, new_w: u32, new_h: u32) -> (result: GrayImage)
    requires
        mask.wf(),
        resizable(mask.width as int, mask.height as int, new_w as int, new_h as int),
    ensures
        result.wf(),
        result.width == new_w,
        result.height == new_h,
        lanczos3_result(mask.data@, mask.width, mask.height, new_w, new_h, result.data@),
        0 < mask.width && 0 < mask.height && mask.width == new_w && mask.height == new_h
            ==> result.data@ == mask.data@,
        mask.width == 0 || mask.height == 0 ==> forall|i: int|
            0 <= i < result.data@.len() ==> result.data@[i] == 0,
{
    let source = image::GrayImage::from_raw(mask.width, mask.height, mask.data.clone());
    let filter = image::imageops::FilterType::Lanczos3;
    let resized = image::imageops::resize(&source.unwrap(), new_w, new_h, filter);
    GrayImage { width: resized.width(), height: resized.height(), data: resized.into_raw() }
}

/// Which sizes can be resampled, written out. An image of the wanted size, or without pixels, is
/// not filtered, so that only the result has to fit into memory.
pub proof fn law_sizes_that_can_be_resampled(w: int, h: int, new_w: int, new_h: int)
    requires
        0 <= w,
        0 <= h,
        0 <= new_w,
        0 <= new_h,
    ensures
        (w == 0 || h == 0 || (w == new_w && h == new_h)) ==> (resizable(w, h, new_w, new_h) <==> new_w
            * new_h * 4 <= isize::MAX),
        !(w == 0 || h == 0 || (w == new_w && h == new_h)) ==> (resizable(w, h, new_w, new_h) <==> {
            &&& w <= 4_194_304 || new_w <= 4_194_304
            &&& h <= 4_194_304 || new_h <= 4_194_304
            &&& w * new_h * 16 <= isize::MAX
            &&& new_w * new_h * 4 <= isize::MAX
            &&& w * 16 <= isize::MAX
            &&& h * 16 <= isize::MAX
        }),
{
}

/// A channel of a picture that is resampled with the triangle filter is resampled by itself:
/// where `plane` holds its bytes, the filter's result for `plane` holds those of the result.
pub proof fn law_channels_are_resampled_apart(
    data: Seq<u8>,
    w: u32,
    h: u32,
    new_w: u32,
    new_h: u32,
    plane: Seq<u8>,
    c: int,
    pixel: int,
)
    requires
        plane.len() == data.len() / 4,
        0 <= c < 4,
        forall|p: int| 0 <= p < plane.len() ==> #[trigger] plane[p] == data[p * 4 + c],
        0 <= pixel < new_w * new_h,
    ensures
        triangle_resized(data, w, h, new_w, new_h).len() == new_w * new_h * 4,
        triangle_resized(data, w, h, new_w, new_h)[pixel * 4 + c] == triangle_resized_plane(
            plane,
            w,
            h,
            new_w,
            new_h,
        )[pixel],
{
    assert(channel_plane(data, c) =~= plane);
    let i = pixel * 4 + c;
    assert(i % 4 == c && i / 4 == pixel);
}

/// What is known of a resampled mask: it is one that the Lanczos filter may give for the mask, it
/// has the wanted size, and a mask of that size is not changed.
pub proof fn law_resampled_mask_comes_from_the_filter(
    data: Seq<u8>,
    w: u32,
    h: u32,
    new_w: u32,
    new_h: u32,
    result: Seq<u8>,
)
    requires
        lanczos3_resampled(data, w, h, new_w, new_h, result),
    ensures
        lanczos3_result(data, w, h, new_w, new_h, result),
        result.len() == new_w * new_h,
        0 < w && 0 < h && w == new_w && h == new_h ==> result == data,
        w == 0 || h == 0 ==> forall|i: int| 0 <= i < result.len() ==> result[i] == 0,
{
}

} // verus!
