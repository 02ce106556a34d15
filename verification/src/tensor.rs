//! The tensors that go into the model and the masks that are read from its output.
//!
//! A model takes its input as samples that are ordered by batch, channel, row and
//! column; its output is ordered in the same way. The samples of the input are the
//! channel bytes moved down by 128, in parts of 256, and the values of the output are
//! levels between 0 and 255.

use vstd::prelude::*;
use crate::arith::{
    lemma_area_monotone, lemma_offset_bound, lemma_offset_join, lemma_offset_split,
};
use crate::raster::{channel_plane, same_colours, GrayImage, RgbaImage};
use crate::resample::{
    can_resize, law_channels_are_resampled_apart, resizable, resize_triangle, triangle_resized,
    triangle_resized_plane,
};

verus! {

/// The number of elements of an array with the axis lengths `dims`.
pub open spec fn size_of_shape(dims: Seq<usize>) -> int
    decreases dims.len(),
{
    if dims.len() == 0 {
        1
    } else {
        dims[0] * size_of_shape(dims.skip(1))
    }
}

/// The product of those axis lengths that are not 0.
pub open spec fn nonzero_size_of_shape(dims: Seq<usize>) -> int
    decreases dims.len(),
{
    if dims.len() == 0 {
        1
    } else if dims[0] == 0 {
        nonzero_size_of_shape(dims.skip(1))
    } else {
        dims[0] * nonzero_size_of_shape(dims.skip(1))
    }
}

/// The coordinate on axis `axis` of element `k` of an array with the axis lengths
/// `dims`, where the elements are counted with the last axis varying fastest.
pub open spec fn coordinate(dims: Seq<usize>, k: int, axis: int) -> int {
    k / size_of_shape(dims.skip(axis + 1)) % (dims[axis] as int)
}

/// The width and the height of the model's input, which are the last two of the four
/// axis lengths in `shape`.
pub fn get_model_dims(shape: &Vec<i64>) -> (dims: (u32, u32))
    requires
        shape@.len() >= 4,
    ensures
        dims.0 == shape@[3] as u32,
        dims.1 == shape@[2] as u32,
{
    (
        #[verifier::truncate]
        (shape[3] as u32),
        #[verifier::truncate]
        (shape[2] as u32),
    )
}

/// The product of the axis lengths that are not 0 bounds that of any tail of the axes, and is the
/// number of elements where no axis length is 0.
proof fn lemma_nonzero_size(dims: Seq<usize>)
    ensures
        1 <= nonzero_size_of_shape(dims),
        size_of_shape(dims) == 0 || size_of_shape(dims) == nonzero_size_of_shape(dims),
        size_of_shape(dims) == 0 <==> dims.contains(0),
    decreases dims.len(),
{
    if dims.len() > 0 {
        let rest = dims.skip(1);
        lemma_nonzero_size(rest);
        let d = dims[0] as int;
        let tail = nonzero_size_of_shape(rest);
        assert(d > 0 ==> d * tail >= 1) by (nonlinear_arith)
            requires
                tail >= 1,
        ;
        assert(d > 0 && size_of_shape(rest) > 0 ==> d * size_of_shape(rest) > 0)
            by (nonlinear_arith);
        assert(d * 0 == 0);
        if dims.contains(0) && d != 0 {
            let i = choose|i: int| 0 <= i < dims.len() && dims[i] == 0;
            assert(rest[i - 1] == 0);
        }
        if rest.contains(0) {
            let i = choose|i: int| 0 <= i < rest.len() && rest[i] == 0;
            assert(dims[i + 1] == 0);
        }
    }
}

/// The product over a tail of the axes is at most that over all of them.
proof fn lemma_tail_is_smaller(dims: Seq<usize>, i: int)
    requires
        0 <= i <= dims.len(),
    ensures
        nonzero_size_of_shape(dims.skip(i)) <= nonzero_size_of_shape(dims),
    decreases i,
{
    if i == 0 {
        assert(dims.skip(0) =~= dims);
    } else {
        let rest = dims.skip(1);
        lemma_tail_is_smaller(rest, i - 1);
        assert(rest.skip(i - 1) =~= dims.skip(i));
        lemma_nonzero_size(rest);
        let d = dims[0] as int;
        let tail = nonzero_size_of_shape(rest);
        assert(d > 0 ==> d * tail >= tail) by (nonlinear_arith)
            requires
                tail >= 1,
        ;
    }
}

/// The number of elements of an array with the axis lengths `dims`, if it can be counted.
pub fn element_count(dims: &Vec<usize>) -> (count: Option<usize>)
    ensures
        count is Some <==> countable(dims@),
        count matches Some(n) ==> n == size_of_shape(dims@),
{
    let mut product: usize = 1;
    let mut empty: bool = false;
    let mut i: usize = dims.len();
    assert(dims@.skip(i as int) =~= Seq::empty());
    while i > 0
        invariant
            0 <= i <= dims@.len(),
            product == nonzero_size_of_shape(dims@.skip(i as int)),
            1 <= product <= isize::MAX,
            empty <==> dims@.skip(i as int).contains(0),
        decreases i,
    {
        let ghost tail = dims@.skip(i as int);
        i = i - 1;
        let length: usize = dims[i];
        proof {
            let longer = dims@.skip(i as int);
            assert(longer[0] == length);
            assert(longer.skip(1) =~= tail);
            lemma_nonzero_size(longer);
            lemma_nonzero_size(tail);
            lemma_tail_is_smaller(dims@, i as int);
            assert(length * product <= usize::MAX * usize::MAX) by (nonlinear_arith)
                requires
                    0 <= length <= usize::MAX,
                    0 <= product <= usize::MAX,
            ;
            assert(usize::MAX * usize::MAX <= u128::MAX) by (nonlinear_arith)
                requires
                    usize::MAX <= 0xffff_ffff_ffff_ffff,
            ;
            if longer.contains(0) && length != 0 {
                let k = choose|k: int| 0 <= k < longer.len() && longer[k] == 0;
                assert(tail[k - 1] == 0);
            }
            if tail.contains(0) {
                let k = choose|k: int| 0 <= k < tail.len() && tail[k] == 0;
                assert(longer[k + 1] == 0);
            }
        }
        if length == 0 {
            empty = true;
        } else {
            let next: u128 = length as u128 * product as u128;
            if next > isize::MAX as u128 {
                return None;
            }
            product = next as usize;
        }
    }
    proof {
        assert(dims@.skip(0) =~= dims@);
        lemma_nonzero_size(dims@);
    }
    if empty {
        Some(0)
    } else {
        Some(product)
    }
}

/// The axis lengths that a model's shape stands for.
pub open spec fn axis_lengths(shape: Seq<i64>) -> Seq<usize> {
    Seq::new(shape.len(), |i: int| shape[i] as usize)
}

/// The axis lengths that a model's shape stands for.
fn axis_lengths_of(shape: &Vec<i64>) -> (dims: Vec<usize>)
    ensures
        dims@ == axis_lengths(shape@),
{
    let mut dims: Vec<usize> = Vec::new();
    let rank: usize = shape.len();
    let mut i: usize = 0;
    while i < rank
        invariant
            rank == shape@.len(),
            0 <= i <= rank,
            dims@.len() == i,
            forall|k: int| 0 <= k < i ==> #[trigger] dims@[k] == shape@[k] as usize,
        decreases rank - i,
    {
        dims.push(
            #[verifier::truncate]
            (shape[i] as usize),
        );
        i = i + 1;
    }
    assert(dims@ =~= axis_lengths(shape@));
    dims
}

/// Shapes that an array can have at all: the product of the axis lengths that are
/// not 0 can be counted.
pub open spec fn countable(dims: Seq<usize>) -> bool {
    nonzero_size_of_shape(dims) <= isize::MAX
}

/// Shapes of an input of single precision numbers that can be filled from a picture
/// of `w` by `h` pixels.
pub open spec fn fillable(dims: Seq<usize>, w: int, h: int) -> bool {
    &&& dims.len() >= 4
    &&& countable(dims)
    &&& size_of_shape(dims) * 4 <= isize::MAX
    &&& size_of_shape(dims) > 0 ==> dims[1] <= 4 && dims[2] <= h && dims[3] <= w
}

/// The sample that element `k` of an input is filled with: the byte of the picture
/// that the element's coordinates lead to, moved down by 128.
pub open spec fn sample_at(dims: Seq<usize>, data: Seq<u8>, w: int, k: int) -> int {
    data[(coordinate(dims, k, 2) * w + coordinate(dims, k, 3)) * 4 + coordinate(dims, k, 1)] - 128
}

/// The sample of channel `c` of the pixel in column `x` and row `y`.
fn sample(picture: &RgbaImage, c: usize, y: usize, x: usize) -> (value: i16)
    requires
        picture.wf(),
        c < 4,
        x < picture.width,
        y < picture.height,
    ensures
        value == picture.channel(x as int, y as int, c as int) - 128,
{
    proof {
        lemma_offset_bound(x as int, y as int, picture.width as int, picture.height as int);
    }
    picture.data[(y * (picture.width as usize) + x) * 4 + c] as i16 - 128
}

/// Calls `ndarray::ArrayBase::from_shape_fn` with the axis lengths `dims` and with
/// [`sample`] as the function of the coordinates, and lists the elements of the array.
///
/// Claimed of it: the array has as many elements as its shape says, each is what the
/// function returns for the element's coordinates, and they are listed with the last
/// axis varying fastest.
#[verifier::external_body]
fn fill_array(dims: &Vec<usize>, picture: &RgbaImage) -> (samples: Vec<i16>)
    requires
        picture.wf(),
        fillable(dims@, picture.width as int, picture.height as int),
    ensures
        samples@.len() == size_of_shape(dims@),
        forall|k: int|
            0 <= k < samples@.len() ==> #[trigger] samples@[k] == sample_at(
                dims@,
                picture.data@,
                picture.width as int,
                k,
            ),
{
    let shape = ndarray::IxDyn(dims);
    let array = ndarray::Array::from_shape_fn(shape, |i| sample(picture, i[1], i[2], i[3]));
    array.iter().copied().collect()
}

/// The samples of an input that is filled from a picture of the input's size, with the
/// last axis varying fastest. A sample stands for its value divided by 256.
pub fn input_samples(dims: &Vec<usize>, picture: &RgbaImage) -> (samples: Vec<i16>)
    requires
        picture.wf(),
        fillable(dims@, picture.width as int, picture.height as int),
    ensures
        samples@.len() == size_of_shape(dims@),
        forall|k: int|
            0 <= k < samples@.len() ==> #[trigger] samples@[k] == sample_at(
                dims@,
                picture.data@,
                picture.width as int,
                k,
            ),
{
    fill_array(dims, picture)
}

/// An input for the model: its axis lengths and its samples.
#[derive(Debug)]
pub struct InputTensor {
    pub dims: Vec<usize>,
    pub samples: Vec<i16>,
}

/// Model shapes for which an input can be made from a picture of `w` by `h` pixels.
pub open spec fn accepts_picture(shape: Seq<i64>, w: int, h: int) -> bool {
    &&& shape.len() >= 4
    &&& resizable(w, h, shape[3] as u32 as int, shape[2] as u32 as int)
    &&& fillable(axis_lengths(shape), shape[3] as u32 as int, shape[2] as u32 as int)
}

/// Tells whether an input can be made for a model from a picture of `w` by `h` pixels.
pub fn can_prepare(shape: &Vec<i64>, w: u32, h: u32) -> (result: bool)
    ensures
        result == accepts_picture(shape@, w as int, h as int),
{
    if shape.len() < 4 {
        return false;
    }
    let (model_w, model_h) = get_model_dims(shape);
    if !can_resize(w, h, model_w, model_h) {
        return false;
    }
    let dims: Vec<usize> = axis_lengths_of(shape);
    match element_count(&dims) {
        Some(size) => size as u128 * 4 <= isize::MAX as u128 && (size == 0 || (dims[1] <= 4
            && dims[2] <= model_h as usize && dims[3] <= model_w as usize)),
        None => false,
    }
}

/// The samples of the input of a model with the input shape `shape` for a picture of `w` by `h`
/// pixels: the picture is brought to the model's width and height with a triangle filter, and
/// its channels become the samples.
pub open spec fn input_of(shape: Seq<i64>, data: Seq<u8>, w: u32, h: u32) -> Seq<int> {
    let model_w = shape[3] as u32;
    let model_h = shape[2] as u32;
    Seq::new(
        size_of_shape(axis_lengths(shape)) as nat,
        |k: int|
            sample_at(
                axis_lengths(shape),
                triangle_resized(data, w, h, model_w, model_h),
                model_w as int,
                k,
            ),
    )
}

/// Makes the input of a model with the input shape `shape` from a picture of any size:
/// the picture is brought to the model's width and height with a triangle filter, and
/// its channels become the samples. A picture of the model's size is taken as it is, and a
/// picture without pixels counts as one of zeros.
pub fn prepare_input(shape: &Vec<i64>, region: &RgbaImage) -> (input: InputTensor)
    requires
        region.wf(),
        accepts_picture(shape@, region.width as int, region.height as int),
    ensures
        input.dims@ == axis_lengths(shape@),
        input.samples@.len() == size_of_shape(axis_lengths(shape@)),
        forall|k: int|
            0 <= k < input.samples@.len() ==> #[trigger] input.samples@[k] == input_of(
                shape@,
                region.data@,
                region.width,
                region.height,
            )[k],
        0 < region.width && 0 < region.height && region.width == shape@[3] as u32 && region.height
            == shape@[2] as u32 ==> forall|k: int|
            0 <= k < input.samples@.len() ==> #[trigger] input.samples@[k] == sample_at(
                axis_lengths(shape@),
                region.data@,
                region.width as int,
                k,
            ),
        region.width == 0 || region.height == 0 ==> forall|k: int|
            0 <= k < input.samples@.len() ==> #[trigger] input.samples@[k] == -128,
{
    let dims: Vec<usize> = axis_lengths_of(shape);
    let (model_w, model_h) = get_model_dims(shape);
    let resized: RgbaImage = resize_triangle(region, model_w, model_h);
    assert(resized.data@ =~= triangle_resized(
        region.data@,
        region.width,
        region.height,
        model_w,
        model_h,
    ));
    let samples: Vec<i16> = input_samples(&dims, &resized);
    proof {
        assert forall|k: int|
            (region.width == 0 || region.height == 0) && 0 <= k
                < samples@.len() implies #[trigger] samples@[k] == -128 by {
            lemma_coordinate_bound(dims@, k, 1);
            lemma_coordinate_bound(dims@, k, 2);
            lemma_coordinate_bound(dims@, k, 3);
            lemma_offset_bound(
                coordinate(dims@, k, 3),
                coordinate(dims@, k, 2),
                model_w as int,
                model_h as int,
            );
        }
    }
    InputTensor { dims, samples }
}

/// Why no mask could be read from the output of a model.
#[derive(Debug, Clone, Copy, PartialEq, Eq)]
pub enum MaskError {
    /// The output has fewer values than its shape says, or a shape that cannot be
    /// counted.
    Shape,
}

/// Declares the error of the `ndarray` crate for data that does not fit a shape.
#[verifier::external_type_specification]
#[verifier::external_body]
pub struct ExShapeError(ndarray::ShapeError);

/// Whether `count` values are enough for an array with the axis lengths `dims`.
pub open spec fn fits_shape(dims: Seq<usize>, count: int) -> bool {
    countable(dims) && size_of_shape(dims) <= count
}

/// Calls `ndarray::ArrayView::from_shape` with the axis lengths `dims` on `levels`, and
/// lists for each element of the view its column, its row and its level, in the order
/// of `indexed_iter`.
///
/// Claimed of it: it fails where the values do not fit the shape and nowhere else; the
/// elements of the view are the first of the values, and they are listed with the last
/// axis varying fastest.
#[verifier::external_body]
fn list_cells(dims: &Vec<usize>, levels: &Vec<u8>) -> (cells: Result<
    Vec<(usize, usize, u8)>,
    ndarray::ShapeError,
>)
    requires
        fits_shape(dims@, levels@.len() as int) && size_of_shape(dims@) > 0 ==> dims@.len() >= 4,
        levels@.len() * 24 <= isize::MAX,
    ensures
        cells is Ok <==> fits_shape(dims@, levels@.len() as int),
        cells matches Ok(list) ==> list@.len() == size_of_shape(dims@) && forall|k: int|
            0 <= k < list@.len() ==> #[trigger] list@[k] == (
                coordinate(dims@, k, 3) as usize,
                coordinate(dims@, k, 2) as usize,
                levels@[k],
            ),
{
    let view = ndarray::ArrayView::from_shape(ndarray::IxDyn(dims), levels.as_slice())?;
    Ok(view.indexed_iter().map(|(i, level)| (i[3], i[2], *level)).collect())
}

/// The level that the pixel in column `x` and row `y` has after the first `n` values
/// of the output were written into an empty mask, one after the other.
pub open spec fn painted(dims: Seq<usize>, levels: Seq<u8>, x: int, y: int, n: int) -> u8
    decreases n,
{
    if n <= 0 {
        0
    } else if coordinate(dims, n - 1, 3) == x && coordinate(dims, n - 1, 2) == y {
        levels[n - 1]
    } else {
        painted(dims, levels, x, y, n - 1)
    }
}

/// The mask of `w` by `h` pixels that the values of an output make: each is written to
/// the pixel that its last two coordinates name.
pub open spec fn mask_of(dims: Seq<usize>, levels: Seq<u8>, w: int, h: int) -> Seq<u8> {
    Seq::new(
        (w * h) as nat,
        |i: int| painted(dims, levels, i % w, i / w, size_of_shape(dims)),
    )
}

/// Outputs of `count` values from which a mask of `w` by `h` pixels can be read: where the values
/// fit the shape, there are at least four axes, and no coordinate leads out of the mask.
pub open spec fn readable(dims: Seq<usize>, count: int, w: int, h: int) -> bool {
    &&& w * h <= isize::MAX
    &&& count * 24 <= isize::MAX
    &&& fits_shape(dims, count) && size_of_shape(dims) > 0 ==> dims.len() >= 4 && dims[2] <= h
        && dims[3] <= w
}

/// Tells whether a mask can be read from an output.
pub fn can_read(dims: &Vec<usize>, count: usize, w: u32, h: u32) -> (result: bool)
    ensures
        result == readable(dims@, count as int, w as int, h as int),
{
    proof {
        lemma_area_monotone(w as int, h as int, u32::MAX as int, u32::MAX as int);
    }
    let limit: u128 = isize::MAX as u128;
    if w as u128 * h as u128 > limit || count as u128 * 24 > limit {
        return false;
    }
    match element_count(dims) {
        Some(size) => size == 0 || size > count || (dims.len() >= 4 && dims[2] <= h as usize
            && dims[3] <= w as usize),
        None => true,
    }
}

/// A mask of zeros.
fn blank_mask(w: u32, h: u32) -> (mask: GrayImage)
    requires
        w * h <= usize::MAX,
    ensures
        mask.wf(),
        mask.width == w,
        mask.height == h,
        forall|i: int| 0 <= i < w * h ==> mask.data@[i] == 0,
{
    let total: usize = (w as usize) * (h as usize);
    let mut data: Vec<u8> = Vec::new();
    let mut i: usize = 0;
    while i < total
        invariant
            total == w * h,
            0 <= i <= total,
            data.len() == i,
            forall|k: int| 0 <= k < i ==> data@[k] == 0,
        decreases total - i,
    {
        data.push(0);
        i = i + 1;
    }
    GrayImage { width: w, height: h, data }
}

/// Reads the mask of `w` by `h` pixels out of the output of a model.
///
/// `levels` are the values of the output, times 255 and cut off to whole numbers
/// between 0 and 255, in the order in which the output lists them.
pub fn read_mask(dims: &Vec<usize>, levels: &Vec<u8>, w: u32, h: u32) -> (mask: Result<
    GrayImage,
    MaskError,
>)
    requires
        readable(dims@, levels@.len() as int, w as int, h as int),
    ensures
        mask is Err <==> !fits_shape(dims@, levels@.len() as int),
        mask matches Ok(m) ==> m.wf() && m.width == w && m.height == h && m.data@ == mask_of(
            dims@,
            levels@,
            w as int,
            h as int,
        ),
{
    let cells: Vec<(usize, usize, u8)> = match list_cells(dims, levels) {
        Ok(list) => list,
        Err(_) => {
            return Err(MaskError::Shape);
        },
    };
    let mut mask: GrayImage = blank_mask(w, h);
    let wide: usize = w as usize;
    let total: usize = cells.len();
    let mut i: usize = 0;
    while i < total
        invariant
            total == cells@.len(),
            total == size_of_shape(dims@),
            total > 0 ==> dims@.len() >= 4 && dims@[2] <= h && dims@[3] <= w,
            forall|k: int|
                0 <= k < total ==> #[trigger] cells@[k] == (
                    coordinate(dims@, k, 3) as usize,
                    coordinate(dims@, k, 2) as usize,
                    levels@[k],
                ),
            wide == w,
            mask.wf(),
            mask.width == w,
            mask.height == h,
            0 <= i <= total,
            forall|p: int|
                0 <= p < w * h ==> #[trigger] mask.data@[p] == painted(
                    dims@,
                    levels@,
                    p % w as int,
                    p / w as int,
                    i as int,
                ),
        decreases total - i,
    {
        let (x, y, level) = cells[i];
        proof {
            assert(cells@[i as int] == (x, y, level));
            lemma_coordinate_bound(dims@, i as int, 2);
            lemma_coordinate_bound(dims@, i as int, 3);
            lemma_offset_bound(x as int, y as int, w as int, h as int);
            lemma_offset_join(x as int, y as int, w as int);
        }
        let ghost before = mask.data@;
        mask.data.set(y * wide + x, level);
        proof {
            assert forall|p: int| 0 <= p < w * h implies #[trigger] mask.data@[p] == painted(
                dims@,
                levels@,
                p % w as int,
                p / w as int,
                i + 1,
            ) by {
                lemma_offset_split(p, w as int, h as int);
                assert(before[p] == painted(
                    dims@,
                    levels@,
                    p % w as int,
                    p / w as int,
                    i as int,
                ));
            }
        }
        i = i + 1;
    }
    assert(mask.data@ =~= mask_of(dims@, levels@, w as int, h as int));
    Ok(mask)
}

/// No axis of an array with elements has the length 0.
proof fn lemma_axes_of_nonempty(dims: Seq<usize>, axis: int)
    requires
        size_of_shape(dims) > 0,
        0 <= axis < dims.len(),
    ensures
        dims[axis] > 0,
        size_of_shape(dims.skip(1)) > 0,
    decreases axis,
{
    let rest = size_of_shape(dims.skip(1));
    assert(dims[0] > 0 && rest > 0) by (nonlinear_arith)
        requires
            dims[0] * rest > 0,
            dims[0] >= 0,
    ;
    if axis > 0 {
        lemma_axes_of_nonempty(dims.skip(1), axis - 1);
        assert(dims.skip(1)[axis - 1] == dims[axis]);
    }
}

/// A coordinate lies below the length of its axis.
proof fn lemma_coordinate_bound(dims: Seq<usize>, k: int, axis: int)
    requires
        0 <= k < size_of_shape(dims),
        0 <= axis < dims.len(),
    ensures
        0 <= coordinate(dims, k, axis) < dims[axis],
{
    lemma_axes_of_nonempty(dims, axis);
    vstd::arithmetic::div_mod::lemma_mod_bound(
        k / size_of_shape(dims.skip(axis + 1)),
        dims[axis] as int,
    );
}

/// The sizes of a shape with four axes and of its tails.
proof fn lemma_four_axes(n: usize, channels: usize, h: usize, w: usize)
    ensures
        ({
            let dims = seq![n, channels, h, w];
            &&& size_of_shape(dims.skip(4)) == 1
            &&& size_of_shape(dims.skip(3)) == w
            &&& size_of_shape(dims.skip(2)) == h * w
            &&& size_of_shape(dims) == n * (channels * (h * w))
        }),
{
    let dims = seq![n, channels, h, w];
    assert(dims.skip(4) =~= Seq::empty());
    assert(dims.skip(3).skip(1) =~= dims.skip(4));
    assert(dims.skip(2).skip(1) =~= dims.skip(3));
    assert(dims.skip(1).skip(1) =~= dims.skip(2));
    assert(size_of_shape(dims.skip(4)) == 1);
    assert(size_of_shape(dims.skip(3)) == w * 1);
    assert(size_of_shape(dims.skip(2)) == h * (w * 1));
    assert(size_of_shape(dims.skip(1)) == channels * (h * (w * 1)));
}

/// In an input of one picture, the samples of a channel are a plane of their own, row by
/// row, and the planes follow each other in the order of the channels.
pub proof fn law_input_is_planar(
    channels: usize,
    h: usize,
    w: usize,
    data: Seq<u8>,
    c: int,
    y: int,
    x: int,
)
    requires
        0 <= c < channels,
        0 <= y < h,
        0 <= x < w,
    ensures
        0 <= (c * h + y) * w + x < size_of_shape(seq![1usize, channels, h, w]),
        sample_at(seq![1usize, channels, h, w], data, w as int, (c * h + y) * w + x) == data[(y * w
            + x) * 4 + c] - 128,
{
    let dims = seq![1usize, channels, h, w];
    lemma_four_axes(1, channels, h, w);
    let line = c * h + y;
    let k = line * w + x;
    lemma_offset_bound(y, c, h as int, channels as int);
    lemma_offset_join(y, c, h as int);
    lemma_offset_bound(x, line, w as int, h * channels);
    lemma_offset_join(x, line, w as int);
    assert(w * (h * channels) == channels * (h * w)) by (nonlinear_arith);
    assert(k / 1 == k);
    assert(coordinate(dims, k, 3) == x);
    assert(coordinate(dims, k, 2) == y) by {
        assert(line % (h as int) == y);
    }
    assert(coordinate(dims, k, 1) == c) by {
        assert(k == c * (h * w) + (y * w + x)) by (nonlinear_arith)
            requires
                k == (c * h + y) * w + x,
        ;
        lemma_offset_bound(x, y, w as int, h as int);
        assert(w * h == h * w) by (nonlinear_arith);
        lemma_offset_join(y * w + x, c, h * w);
        vstd::arithmetic::div_mod::lemma_small_mod(c as nat, channels as nat);
    }
}

/// A model with three channels at most never sees the alpha channel of a picture.
pub proof fn law_alpha_does_not_reach_the_model(
    shape: Seq<i64>,
    a: Seq<u8>,
    b: Seq<u8>,
    w: u32,
    h: u32,
)
    requires
        fillable(axis_lengths(shape), shape[3] as u32 as int, shape[2] as u32 as int),
        shape[1] as usize <= 3,
        same_colours(a, b),
    ensures
        input_of(shape, a, w, h) == input_of(shape, b, w, h),
{
    let dims = axis_lengths(shape);
    let model_w = shape[3] as u32;
    let model_h = shape[2] as u32;
    lemma_nonzero_size(dims);
    assert forall|k: int| 0 <= k < size_of_shape(dims) implies #[trigger] input_of(
        shape,
        a,
        w,
        h,
    )[k] == input_of(shape, b, w, h)[k] by {
        let x = coordinate(dims, k, 3);
        let y = coordinate(dims, k, 2);
        let c = coordinate(dims, k, 1);
        lemma_coordinate_bound(dims, k, 1);
        lemma_coordinate_bound(dims, k, 2);
        lemma_coordinate_bound(dims, k, 3);
        lemma_offset_bound(x, y, model_w as int, model_h as int);
        let i = (y * model_w + x) * 4 + c;
        assert(i % 4 == c);
        assert(channel_plane(a, c) =~= channel_plane(b, c)) by {
            assert forall|p: int| 0 <= p < a.len() / 4 implies #[trigger] channel_plane(a, c)[p]
                == channel_plane(b, c)[p] by {
                assert((p * 4 + c) % 4 != 3);
            }
        }
    }
    assert(input_of(shape, a, w, h) =~= input_of(shape, b, w, h));
}

/// An output with a single channel is its own mask: the values of the output, row by row.
pub proof fn law_single_channel_output_is_the_mask(h: usize, w: usize, levels: Seq<u8>)
    requires
        levels.len() == w * h,
    ensures
        mask_of(seq![1usize, 1usize, h, w], levels, w as int, h as int) == levels,
{
    let dims = seq![1usize, 1usize, h, w];
    lemma_four_axes(1, 1, h, w);
    assert(h * w == w * h) by (nonlinear_arith);
    let size = size_of_shape(dims);
    assert(size == w * h);
    assert forall|i: int| 0 <= i < w * h implies mask_of(dims, levels, w as int, h as int)[i]
        == levels[i] by {
        lemma_offset_split(i, w as int, h as int);
        lemma_painted_once(h, w, levels, i, size);
    }
    assert(mask_of(dims, levels, w as int, h as int) =~= levels);
}

/// Only value `i` of a single-channel output is written to pixel `i` of the mask.
proof fn lemma_painted_once(h: usize, w: usize, levels: Seq<u8>, i: int, n: int)
    requires
        0 <= i < n <= w * h,
    ensures
        painted(seq![1usize, 1usize, h, w], levels, i % w as int, i / w as int, n) == levels[i],
    decreases n,
{
    let dims = seq![1usize, 1usize, h, w];
    lemma_four_axes(1, 1, h, w);
    let k = n - 1;
    lemma_offset_split(i, w as int, h as int);
    lemma_offset_split(k, w as int, h as int);
    assert(k / 1 == k);
    assert(coordinate(dims, k, 3) == k % w as int);
    assert(coordinate(dims, k, 2) == k / w as int) by {
        vstd::arithmetic::div_mod::lemma_small_mod((k / w as int) as nat, h as nat);
    }
    if k > i {
        lemma_painted_once(h, w, levels, i, n - 1);
    }
}

/// The number of elements is the product of the axis lengths. Lengths of 0 do not count for the
/// product that has to be countable.
pub proof fn law_size_is_the_product_of_the_lengths(length: usize, rest: Seq<usize>)
    ensures
        size_of_shape(Seq::empty()) == 1,
        nonzero_size_of_shape(Seq::empty()) == 1,
        size_of_shape(seq![length] + rest) == length * size_of_shape(rest),
        length > 0 ==> nonzero_size_of_shape(seq![length] + rest) == length * nonzero_size_of_shape(
            rest,
        ),
        length == 0 ==> nonzero_size_of_shape(seq![length] + rest) == nonzero_size_of_shape(rest),
{
    assert((seq![length] + rest).skip(1) =~= rest);
}

/// The elements are counted with the last axis varying fastest: an element's coordinate on the
/// first axis is the number of whole blocks of the other axes before it, and its coordinates on
/// these do not depend on the first.
pub proof fn law_last_axis_varies_fastest(length: usize, rest: Seq<usize>, k: int, axis: int)
    requires
        0 <= k < size_of_shape(seq![length] + rest),
        0 <= axis < rest.len(),
    ensures
        coordinate(seq![length] + rest, k, 0) == k / size_of_shape(rest),
        coordinate(seq![length] + rest, k, axis + 1) == coordinate(rest, k, axis),
{
    let dims = seq![length] + rest;
    assert(dims.skip(1) =~= rest);
    assert(dims.skip(axis + 2) =~= rest.skip(axis + 1));
    let block = size_of_shape(rest);
    lemma_axes_of_nonempty(dims, 0);
    assert(length * block == block * length) by (nonlinear_arith);
    lemma_offset_split(k, block, length as int);
    vstd::arithmetic::div_mod::lemma_small_mod((k / block) as nat, length as nat);
}

/// The sizes of a shape with four axes and of its tails, from the second axis on.
proof fn lemma_size_of_three_axes(n: usize, channels: usize, h: usize, w: usize)
    ensures
        size_of_shape(seq![n, channels, h, w].skip(1)) == channels * (h * w),
{
    let dims = seq![n, channels, h, w];
    lemma_four_axes(n, channels, h, w);
    assert(dims.skip(1).skip(1) =~= dims.skip(2));
}

/// In an array with four axes, the element with the coordinates `i`, `c`, `y` and `x` has the
/// number `((i * channels + c) * h + y) * w + x`.
pub proof fn law_number_of_an_element(
    n: usize,
    channels: usize,
    h: usize,
    w: usize,
    i: int,
    c: int,
    y: int,
    x: int,
)
    requires
        0 <= i < n,
        0 <= c < channels,
        0 <= y < h,
        0 <= x < w,
    ensures
        size_of_shape(seq![n, channels, h, w]) == n * (channels * (h * w)),
        0 <= ((i * channels + c) * h + y) * w + x < n * (channels * (h * w)),
        coordinate(seq![n, channels, h, w], ((i * channels + c) * h + y) * w + x, 0) == i,
        coordinate(seq![n, channels, h, w], ((i * channels + c) * h + y) * w + x, 1) == c,
        coordinate(seq![n, channels, h, w], ((i * channels + c) * h + y) * w + x, 2) == y,
        coordinate(seq![n, channels, h, w], ((i * channels + c) * h + y) * w + x, 3) == x,
{
    let dims = seq![n, channels, h, w];
    lemma_four_axes(n, channels, h, w);
    lemma_size_of_three_axes(n, channels, h, w);
    let plane = i * channels + c;
    let line = plane * h + y;
    let k = line * w + x;
    let area = h * w;
    let block = channels * area;
    let inner = y * w + x;
    lemma_offset_bound(x, y, w as int, h as int);
    assert(w * h == area) by (nonlinear_arith)
        requires
            area == h * w,
    ;
    lemma_offset_bound(inner, c, area, channels as int);
    assert(area * channels == block) by (nonlinear_arith)
        requires
            block == channels * area,
    ;
    assert(k == plane * area + inner) by (nonlinear_arith)
        requires
            k == (plane * h + y) * w + x,
            inner == y * w + x,
            area == h * w,
    ;
    assert(k == i * block + (c * area + inner)) by (nonlinear_arith)
        requires
            k == plane * area + inner,
            plane == i * channels + c,
            block == channels * area,
    ;
    lemma_offset_bound(c * area + inner, i, block, n as int);
    assert(block * n == n * block) by (nonlinear_arith);
    assert(k / 1 == k);
    lemma_offset_join(x, line, w as int);
    lemma_offset_join(y, plane, h as int);
    lemma_offset_join(inner, plane, area);
    lemma_offset_join(c, i, channels as int);
    lemma_offset_join(c * area + inner, i, block);
    vstd::arithmetic::div_mod::lemma_small_mod(i as nat, n as nat);
}

/// The axis lengths of a shape are its numbers, one for one.
pub proof fn law_axis_lengths_are_those_of_the_shape(shape: Seq<i64>, i: int)
    requires
        0 <= i < shape.len(),
    ensures
        axis_lengths(shape).len() == shape.len(),
        axis_lengths(shape)[i] == shape[i] as usize,
{
}

/// The sample of channel `c` in row `y` and column `x` of picture `i` of an input is the byte that
/// the triangle filter puts there when it scales the channel of the whole picture to the model's
/// size, moved down by 128; `plane` holds the bytes of the channel.
pub proof fn law_input_is_the_scaled_picture(
    shape: Seq<i64>,
    data: Seq<u8>,
    w: u32,
    h: u32,
    plane: Seq<u8>,
    i: int,
    c: int,
    y: int,
    x: int,
)
    requires
        shape.len() == 4,
        0 <= i < shape[0] <= usize::MAX,
        0 <= c < shape[1] <= 4,
        0 <= y < shape[2] <= u32::MAX,
        0 <= x < shape[3] <= u32::MAX,
        plane.len() == data.len() / 4,
        forall|p: int| 0 <= p < plane.len() ==> #[trigger] plane[p] == data[p * 4 + c],
    ensures
        input_of(shape, data, w, h).len() == shape[0] * (shape[1] * (shape[2] * shape[3])),
        0 <= ((i * shape[1] + c) * shape[2] + y) * shape[3] + x < input_of(
            shape,
            data,
            w,
            h,
        ).len(),
        input_of(shape, data, w, h)[((i * shape[1] + c) * shape[2] + y) * shape[3] + x]
            == triangle_resized_plane(plane, w, h, shape[3] as u32, shape[2] as u32)[y * shape[3]
            + x] - 128,
{
    let dims = seq![shape[0] as usize, shape[1] as usize, shape[2] as usize, shape[3] as usize];
    assert(axis_lengths(shape) =~= dims);
    law_number_of_an_element(dims[0], dims[1], dims[2], dims[3], i, c, y, x);
    lemma_offset_bound(x, y, shape[3] as int, shape[2] as int);
    law_channels_are_resampled_apart(
        data,
        w,
        h,
        shape[3] as u32,
        shape[2] as u32,
        plane,
        c,
        y * shape[3] + x,
    );
}

/// A pixel of the mask has the value that comes last among those that lead to it, and is 0 where
/// none does.
pub proof fn law_last_value_of_a_pixel_wins(
    dims: Seq<usize>,
    levels: Seq<u8>,
    w: int,
    h: int,
    x: int,
    y: int,
    k: int,
)
    requires
        0 <= x < w,
        0 <= y < h,
        -1 <= k < size_of_shape(dims),
        k >= 0 ==> coordinate(dims, k, 3) == x && coordinate(dims, k, 2) == y,
        forall|j: int|
            k < j < size_of_shape(dims) ==> !(#[trigger] coordinate(dims, j, 3) == x && coordinate(
                dims,
                j,
                2,
            ) == y),
    ensures
        mask_of(dims, levels, w, h).len() == w * h,
        0 <= y * w + x < w * h,
        k >= 0 ==> mask_of(dims, levels, w, h)[y * w + x] == levels[k],
        k == -1 ==> mask_of(dims, levels, w, h)[y * w + x] == 0,
{
    lemma_offset_bound(x, y, w, h);
    lemma_offset_join(x, y, w);
    lemma_painted_last(dims, levels, x, y, size_of_shape(dims), k);
}

proof fn lemma_painted_last(dims: Seq<usize>, levels: Seq<u8>, x: int, y: int, n: int, k: int)
    requires
        -1 <= k < n || (k == -1 && n == 0),
        k >= 0 ==> coordinate(dims, k, 3) == x && coordinate(dims, k, 2) == y,
        forall|j: int|
            k < j < n ==> !(#[trigger] coordinate(dims, j, 3) == x && coordinate(dims, j, 2) == y),
    ensures
        k >= 0 ==> painted(dims, levels, x, y, n) == levels[k],
        k == -1 ==> painted(dims, levels, x, y, n) == 0,
    decreases n,
{
    if n > 0 && n - 1 > k {
        assert(!(coordinate(dims, n - 1, 3) == x && coordinate(dims, n - 1, 2) == y));
        lemma_painted_last(dims, levels, x, y, n - 1, k);
    }
}

/// The mask that an output with four axes gives: of each pixel the value of the last channel of
/// the last picture, and 0 outside of what the output covers.
pub proof fn law_mask_is_the_last_channel(
    n: usize,
    channels: usize,
    out_h: usize,
    out_w: usize,
    levels: Seq<u8>,
    w: int,
    h: int,
    x: int,
    y: int,
)
    requires
        0 < n,
        0 < channels,
        out_h <= h,
        out_w <= w,
        0 <= x < w,
        0 <= y < h,
    ensures
        mask_of(seq![n, channels, out_h, out_w], levels, w, h).len() == w * h,
        0 <= y * w + x < w * h,
        x < out_w && y < out_h ==> mask_of(seq![n, channels, out_h, out_w], levels, w, h)[y * w + x]
            == levels[(((n - 1) * channels + (channels - 1)) * out_h + y) * out_w + x],
        !(x < out_w && y < out_h) ==> mask_of(seq![n, channels, out_h, out_w], levels, w, h)[y * w
            + x] == 0,
{
    let dims = seq![n, channels, out_h, out_w];
    let size = size_of_shape(dims);
    lemma_four_axes(n, channels, out_h, out_w);
    lemma_nonzero_size(dims);
    if x < out_w && y < out_h {
        let top = (n - 1) * channels + (channels - 1);
        let k = (top * out_h + y) * out_w + x;
        law_number_of_an_element(
            n,
            channels,
            out_h,
            out_w,
            n - 1,
            channels - 1,
            y,
            x,
        );
        assert forall|j: int| k < j < size implies !(#[trigger] coordinate(dims, j, 3) == x
            && coordinate(dims, j, 2) == y) by {
            if coordinate(dims, j, 3) == x && coordinate(dims, j, 2) == y {
                lemma_element_of_a_pixel(n, channels, out_h, out_w, j);
                let q = j / out_w as int / out_h as int;
                assert(top == n * channels - 1) by (nonlinear_arith)
                    requires
                        top == (n - 1) * channels + (channels - 1),
                ;
                assert((q * out_h + y) * out_w <= (top * out_h + y) * out_w) by (nonlinear_arith)
                    requires
                        q <= top,
                        0 <= out_h,
                        0 <= out_w,
                ;
            }
        }
        law_last_value_of_a_pixel_wins(dims, levels, w, h, x, y, k);
    } else {
        assert forall|j: int| -1 < j < size implies !(#[trigger] coordinate(dims, j, 3) == x
            && coordinate(dims, j, 2) == y) by {
            lemma_coordinate_bound(dims, j, 2);
            lemma_coordinate_bound(dims, j, 3);
        }
        law_last_value_of_a_pixel_wins(dims, levels, w, h, x, y, -1);
    }
}

/// The number of an element is made of its last two coordinates and the number of its plane.
proof fn lemma_element_of_a_pixel(n: usize, channels: usize, h: usize, w: usize, j: int)
    requires
        0 <= j < size_of_shape(seq![n, channels, h, w]),
    ensures
        ({
            let dims = seq![n, channels, h, w];
            let q = j / w as int / h as int;
            &&& j == (q * h + coordinate(dims, j, 2)) * w + coordinate(dims, j, 3)
            &&& 0 <= q < n * channels
        }),
{
    let dims = seq![n, channels, h, w];
    lemma_four_axes(n, channels, h, w);
    let lines = n * channels * h;
    assert(n * (channels * (h * w)) == w * lines) by (nonlinear_arith)
        requires
            lines == n * channels * h,
    ;
    lemma_offset_split(j, w as int, lines);
    let line = j / w as int;
    assert(lines == h * (n * channels)) by (nonlinear_arith)
        requires
            lines == n * channels * h,
    ;
    lemma_offset_split(line, h as int, n * channels);
    assert(j / 1 == j);
}

/// When values fit a shape, when an input can be filled and when a mask can be read, written out
/// for shapes with four axes of which none is 0.
pub proof fn law_shapes_that_fit(
    n: usize,
    channels: usize,
    h: usize,
    w: usize,
    count: int,
    width: int,
    height: int,
)
    requires
        0 < n,
        0 < channels,
        0 < h,
        0 < w,
    ensures
        countable(seq![n, channels, h, w]) <==> n * (channels * (h * w)) <= isize::MAX,
        fits_shape(seq![n, channels, h, w], count) <==> n * (channels * (h * w)) <= isize::MAX && n * (
        channels * (h * w)) <= count,
        fillable(seq![n, channels, h, w], width, height) <==> n * (channels * (h * w)) * 4
            <= isize::MAX && channels <= 4 && h <= height && w <= width,
        readable(seq![n, channels, h, w], count, width, height) <==> width * height <= isize::MAX
            && count * 24 <= isize::MAX && (n * (channels * (h * w)) <= count ==> h <= height && w
            <= width),
{
    let dims = seq![n, channels, h, w];
    lemma_four_axes(n, channels, h, w);
    lemma_nonzero_size(dims);
    assert(!dims.contains(0)) by {
        if dims.contains(0) {
            let i = choose|i: int| 0 <= i < dims.len() && dims[i] == 0;
            assert(i == 0 || i == 1 || i == 2 || i == 3);
        }
    }
}

/// Model shapes for which an input can be made are those whose width and height a picture can be
/// brought to and whose input can then be filled.
pub proof fn law_shapes_that_accept_a_picture(shape: Seq<i64>, w: int, h: int)
    requires
        shape.len() == 4,
        0 < shape[0] <= usize::MAX,
        0 < shape[1] <= 4,
        0 < shape[2] <= u32::MAX,
        0 < shape[3] <= u32::MAX,
    ensures
        accepts_picture(shape, w, h) <==> resizable(w, h, shape[3] as int, shape[2] as int)
            && shape[0] * (shape[1] * (shape[2] * shape[3])) * 4 <= isize::MAX,
{
    let dims = seq![shape[0] as usize, shape[1] as usize, shape[2] as usize, shape[3] as usize];
    assert(axis_lengths(shape) =~= dims);
    law_shapes_that_fit(
        dims[0],
        dims[1],
        dims[2],
        dims[3],
        0,
        shape[3] as int,
        shape[2] as int,
    );
}

/// The sample of an element is the byte in the column, the row and the channel that its last
/// coordinates name, moved down by 128, for shapes with any number of axes.
pub proof fn law_sample_is_the_byte_at_its_coordinates(
    dims: Seq<usize>,
    data: Seq<u8>,
    w: int,
    k: int,
    c: int,
    y: int,
    x: int,
)
    requires
        coordinate(dims, k, 1) == c,
        coordinate(dims, k, 2) == y,
        coordinate(dims, k, 3) == x,
    ensures
        sample_at(dims, data, w, k) == data[(y * w + x) * 4 + c] - 128,
{
}

/// The sample of an element of an input is the byte that the triangle filter puts where the
/// element's last coordinates lead, moved down by 128, for shapes with any number of axes;
/// `plane` holds the bytes of the channel that the element belongs to.
pub proof fn law_every_sample_is_scaled(
    shape: Seq<i64>,
    data: Seq<u8>,
    w: u32,
    h: u32,
    plane: Seq<u8>,
    k: int,
)
    requires
        fillable(axis_lengths(shape), shape[3] as u32 as int, shape[2] as u32 as int),
        0 <= k < size_of_shape(axis_lengths(shape)),
        plane.len() == data.len() / 4,
        forall|p: int|
            0 <= p < plane.len() ==> #[trigger] plane[p] == data[p * 4 + coordinate(
                axis_lengths(shape),
                k,
                1,
            )],
    ensures
        input_of(shape, data, w, h).len() == size_of_shape(axis_lengths(shape)),
        ({
            let dims = axis_lengths(shape);
            let model_w = shape[3] as u32;
            let model_h = shape[2] as u32;
            input_of(shape, data, w, h)[k] == triangle_resized_plane(plane, w, h, model_w, model_h)[
            coordinate(dims, k, 2) * model_w + coordinate(dims, k, 3)] - 128
        }),
{
    let dims = axis_lengths(shape);
    let model_w = shape[3] as u32;
    let model_h = shape[2] as u32;
    lemma_coordinate_bound(dims, k, 1);
    lemma_coordinate_bound(dims, k, 2);
    lemma_coordinate_bound(dims, k, 3);
    let x = coordinate(dims, k, 3);
    let y = coordinate(dims, k, 2);
    let c = coordinate(dims, k, 1);
    lemma_offset_bound(x, y, model_w as int, model_h as int);
    law_channels_are_resampled_apart(
        data,
        w,
        h,
        model_w,
        model_h,
        plane,
        c,
        y * model_w + x,
    );
}

/// What fits a shape, what can be filled and what can be read, written out for shapes with any
/// number of axes.
pub proof fn law_what_a_shape_admits(dims: Seq<usize>, count: int, w: int, h: int)
    ensures
        countable(dims) <==> nonzero_size_of_shape(dims) <= isize::MAX,
        fits_shape(dims, count) <==> nonzero_size_of_shape(dims) <= isize::MAX && size_of_shape(dims)
            <= count,
        fillable(dims, w, h) <==> dims.len() >= 4 && nonzero_size_of_shape(dims) <= isize::MAX
            && size_of_shape(dims) * 4 <= isize::MAX && (size_of_shape(dims) > 0 ==> dims[1] <= 4
            && dims[2] <= h && dims[3] <= w),
        readable(dims, count, w, h) <==> w * h <= isize::MAX && count * 24 <= isize::MAX && (
        nonzero_size_of_shape(dims) <= isize::MAX && 0 < size_of_shape(dims) <= count ==> dims.len()
            >= 4 && dims[2] <= h && dims[3] <= w),
{
}

/// A model accepts the pictures that can be brought to its size, where an input of that size can
/// be filled.
pub proof fn law_models_accept_what_can_be_scaled(shape: Seq<i64>, w: int, h: int)
    requires
        shape.len() >= 4,
    ensures
        accepts_picture(shape, w, h) <==> resizable(
            w,
            h,
            shape[3] as u32 as int,
            shape[2] as u32 as int,
        ) && fillable(axis_lengths(shape), shape[3] as u32 as int, shape[2] as u32 as int),
{
}

} // verus!
