//! Encoded pictures: what comes in on the standard input and what goes out again.

use vstd::prelude::*;
use crate::arith::lemma_area_monotone;
use crate::raster::RgbaImage;
use crate::visible::{
    crop_to_visible, find_alpha_bounds, has_visible, law_crop_starts_at_the_bounds,
    law_tight_bounds_are_unique, tight_bounds, visible, visible_window,
};

verus! {

/// Declares the error of the `image` crate.
#[verifier::external_type_specification]
#[verifier::external_body]
pub struct ExImageError(image::ImageError);

/// Why a picture could not be read or written.
#[derive(Debug)]
pub enum CodecError {
    /// The bytes are no picture of the format that they were taken for.
    Decode(image::ImageError),
    /// The picture could not be encoded.
    Encode(image::ImageError),
}

/// Whether data begins as a JPEG file does.
pub open spec fn jpeg_signature(bytes: Seq<u8>) -> bool {
    bytes.len() > 2 && bytes[0] == 0xFF && bytes[1] == 0xD8 && bytes[2] == 0xFF
}

/// Claimed of `infer::image::is_jpeg`: it looks at the first three bytes and at nothing else.
pub assume_specification[ infer::image::is_jpeg ](buf: &[u8]) -> (result: bool)
    ensures
        result == jpeg_signature(buf@),
;

/// Names what `image::ImageReader` may decode data to that is read as a JPEG file: the width,
/// the height and the RGBA bytes of a picture, or nothing where it fails. The decoder picks
/// its transform by the processor, so more than one picture may be a result.
pub uninterp spec fn jpeg_decode_result(
    bytes: Seq<u8>,
    result: Option<(u32, u32, Seq<u8>)>,
) -> bool;

/// Names what `image::ImageReader` decodes data to that is read as a PNG file: the width, the
/// height and the RGBA bytes of a picture, or nothing where it fails.
pub uninterp spec fn png_decoded(bytes: Seq<u8>) -> Option<(u32, u32, Seq<u8>)>;

/// Names the PNG file that the `image` crate encodes an RGBA picture to.
pub uninterp spec fn png_encoded(w: u32, h: u32, data: Seq<u8>) -> Seq<u8>;

/// Calls `decode` of an `image::ImageReader` that was made for JPEG files, and brings the
/// picture to RGBA with eight bits for each channel.
///
/// Claimed of it: the picture, or the failure, is one that the reader may give for the data,
/// and a picture has four bytes for each pixel.
#[verifier::external_body]
fn decode_jpeg(bytes: Vec<u8>) -> (picture: Result<RgbaImage, image::ImageError>)
    ensures
        picture matches Ok(p) ==> p.wf() && jpeg_decode_result(
            bytes@,
            Some((p.width, p.height, p.data@)),
        ),
        picture is Err ==> jpeg_decode_result(bytes@, None),
{
    let source = std::io::Cursor::new(bytes);
    let reader = image::ImageReader::with_format(source, image::ImageFormat::Jpeg);
    let decoded = reader.decode()?.into_rgba8();
    Ok(RgbaImage { width: decoded.width(), height: decoded.height(), data: decoded.into_raw() })
}

/// Calls `decode` of an `image::ImageReader` that was made for PNG files, and brings the
/// picture to RGBA with eight bits for each channel.
///
/// Claimed of it: the picture, or the failure, is a function of the data, and a picture has
/// four bytes for each pixel.
#[verifier::external_body]
fn decode_png(bytes: Vec<u8>) -> (picture: Result<RgbaImage, image::ImageError>)
    ensures
        picture matches Ok(p) ==> p.wf() && png_decoded(bytes@) == Some(
            (p.width, p.height, p.data@),
        ),
        picture is Err ==> png_decoded(bytes@) is None,
{
    let source = std::io::Cursor::new(bytes);
    let reader = image::ImageReader::with_format(source, image::ImageFormat::Png);
    let decoded = reader.decode()?.into_rgba8();
    Ok(RgbaImage { width: decoded.width(), height: decoded.height(), data: decoded.into_raw() })
}

/// Sizes that a PNG file can be encoded for. The encoder counts the zero bytes in a row, which
/// holds four bytes for each pixel and one more, with 32 bits; and the file, which takes less
/// than twice the bytes of the picture in a buffer that doubles as it grows, has to fit into
/// memory. A picture without pixels is refused before a row is looked at.
pub open spec fn encodable(w: int, h: int) -> bool {
    0 < w && 0 < h ==> w * 4 + 1 <= u32::MAX && w * h * 16 <= isize::MAX
}

/// Tells whether a PNG file can be encoded for a picture of `w` by `h` pixels.
pub fn can_encode_size(w: u32, h: u32) -> (result: bool)
    ensures
        result == encodable(w as int, h as int),
{
    proof {
        lemma_area_monotone(w as int, h as int, u32::MAX as int, u32::MAX as int);
    }
    if w == 0 || h == 0 {
        return true;
    }
    w as u64 * 4 < u32::MAX as u64 && w as u128 * h as u128 * 16 <= isize::MAX as u128
}

/// Calls `image::ImageBuffer::write_to` with the PNG format on a buffer in memory.
///
/// Claimed of it: for the sizes that it is called with, it fails for a picture without pixels
/// and for no other, and the file is a function of the picture.
#[verifier::external_body]
fn encode_png(picture: &RgbaImage) -> (file: Result<Vec<u8>, image::ImageError>)
    requires
        picture.wf(),
        encodable(picture.width as int, picture.height as int),
    ensures
        file is Err <==> picture.width == 0 || picture.height == 0,
        file matches Ok(f) ==> f@ == png_encoded(picture.width, picture.height, picture.data@),
{
    let source = image::RgbaImage::from_raw(picture.width, picture.height, picture.data.clone());
    let mut file = std::io::Cursor::new(Vec::new());
    source.unwrap().write_to(&mut file, image::ImageFormat::Png)?;
    Ok(file.into_inner())
}

/// Whether `result` is what may become of data that comes in: data that begins as a JPEG file
/// does is read as one, and all other data is read as a PNG file.
pub open spec fn is_input(bytes: Seq<u8>, result: Option<(u32, u32, Seq<u8>)>) -> bool {
    if jpeg_signature(bytes) {
        jpeg_decode_result(bytes, result)
    } else {
        png_decoded(bytes) == result
    }
}

/// Decodes a picture: data that begins as a JPEG file does is read as one, and all other
/// data is read as a PNG file.
pub fn decode_input(bytes: Vec<u8>) -> (picture: Result<RgbaImage, CodecError>)
    ensures
        picture matches Ok(p) ==> p.wf() && is_input(
            bytes@,
            Some((p.width, p.height, p.data@)),
        ),
        picture matches Err(e) ==> e is Decode && is_input(bytes@, None),
{
    let decoded: Result<RgbaImage, image::ImageError> = if infer::image::is_jpeg(
        bytes.as_slice(),
    ) {
        decode_jpeg(bytes)
    } else {
        decode_png(bytes)
    };
    match decoded {
        Ok(picture) => Ok(picture),
        Err(error) => Err(CodecError::Decode(error)),
    }
}

/// Whether `w`, `h` and `data` are the picture that goes out: the visible part where a crop
/// was asked for, and all of it otherwise.
pub open spec fn is_output(picture: &RgbaImage, crop: bool, w: u32, h: u32, data: Seq<u8>) -> bool {
    if crop {
        exists|bounds: (u32, u32, u32, u32)|
            #[trigger] tight_bounds(picture, bounds) && w == bounds.2 - bounds.0 && h == bounds.3
                - bounds.1 && data == visible_window(picture, bounds)
    } else {
        w == picture.width && h == picture.height && data == picture.data@
    }
}

/// Whether the picture that goes out, if any, has a size that a PNG file can be encoded for.
pub open spec fn output_encodable(picture: &RgbaImage, crop: bool) -> bool {
    forall|w: u32, h: u32, data: Seq<u8>| #[trigger]
        is_output(picture, crop, w, h, data) ==> encodable(w as int, h as int)
}

/// Tells whether the picture that goes out has a size that a PNG file can be encoded for.
pub fn can_encode(picture: &RgbaImage, crop: bool) -> (result: bool)
    requires
        picture.wf(),
    ensures
        result == output_encodable(picture, crop),
{
    if !crop {
        assert(is_output(picture, crop, picture.width, picture.height, picture.data@));
        return can_encode_size(picture.width, picture.height);
    }
    match find_alpha_bounds(picture) {
        Some((min_x, min_y, max_x, max_y)) => {
            let ghost bounds = (min_x, min_y, max_x, max_y);
            proof {
                law_tight_bounds_are_unique(picture, bounds, bounds);
            }
            let w: u32 = max_x - min_x;
            let h: u32 = max_y - min_y;
            let ghost data = visible_window(picture, bounds);
            proof {
                assert(is_output(picture, crop, w, h, data));
                assert forall|a: u32, b: u32, d: Seq<u8>| #[trigger]
                    is_output(picture, crop, a, b, d) implies a == w && b == h by {
                    law_output_is_unique(picture, crop, (a, b, d), (w, h, data));
                }
            }
            can_encode_size(w, h)
        },
        None => {
            assert forall|w: u32, h: u32, data: Seq<u8>| #[trigger]
                is_output(picture, crop, w, h, data) implies encodable(w as int, h as int) by {
                let bounds = choose|bounds: (u32, u32, u32, u32)| #[trigger]
                    tight_bounds(picture, bounds);
                let y = choose|y: int| visible(picture, bounds.0 as int, y);
                assert(visible(picture, bounds.0 as int, y));
            }
            true
        },
    }
}

/// Encodes the picture that goes out as a PNG file. Nothing goes out where a crop was asked
/// for and no pixel is visible, and a picture without pixels cannot be encoded.
pub fn encode_output(picture: &RgbaImage, crop: bool) -> (file: Result<Option<Vec<u8>>, CodecError>)
    requires
        picture.wf(),
        output_encodable(picture, crop),
    ensures
        file matches Ok(None) <==> crop && !has_visible(picture),
        file matches Ok(Some(f)) ==> exists|w: u32, h: u32, data: Seq<u8>|
            #[trigger] is_output(picture, crop, w, h, data) && w > 0 && h > 0 && f@ == png_encoded(
                w,
                h,
                data,
            ),
        file matches Err(e) ==> e is Encode && exists|w: u32, h: u32, data: Seq<u8>|
            #[trigger] is_output(picture, crop, w, h, data) && (w == 0 || h == 0),
{
    if crop {
        match crop_to_visible(picture) {
            Some(part) => {
                assert(is_output(picture, crop, part.width, part.height, part.data@));
                match encode_png(&part) {
                    Ok(file) => Ok(Some(file)),
                    Err(error) => Err(CodecError::Encode(error)),
                }
            },
            None => Ok(None),
        }
    } else {
        assert(is_output(picture, crop, picture.width, picture.height, picture.data@));
        match encode_png(picture) {
            Ok(file) => Ok(Some(file)),
            Err(error) => Err(CodecError::Encode(error)),
        }
    }
}

/// There is only one picture that goes out.
pub proof fn law_output_is_unique(
    picture: &RgbaImage,
    crop: bool,
    a: (u32, u32, Seq<u8>),
    b: (u32, u32, Seq<u8>),
)
    requires
        is_output(picture, crop, a.0, a.1, a.2),
        is_output(picture, crop, b.0, b.1, b.2),
    ensures
        a == b,
{
    if crop {
        let p = choose|p: (u32, u32, u32, u32)|
            #[trigger] tight_bounds(picture, p) && a.0 == p.2 - p.0 && a.1 == p.3 - p.1 && a.2
                == visible_window(picture, p);
        let q = choose|q: (u32, u32, u32, u32)|
            #[trigger] tight_bounds(picture, q) && b.0 == q.2 - q.0 && b.1 == q.3 - q.1 && b.2
                == visible_window(picture, q);
        law_tight_bounds_are_unique(picture, p, q);
    }
}

/// Data is read as a JPEG file where its first three bytes are 255, 216 and 255, and as a PNG
/// file otherwise.
pub proof fn law_input_is_read_by_its_first_bytes(
    bytes: Seq<u8>,
    result: Option<(u32, u32, Seq<u8>)>,
)
    ensures
        bytes.len() >= 3 && bytes[0] == 255 && bytes[1] == 216 && bytes[2] == 255 ==> (is_input(
            bytes,
            result,
        ) <==> jpeg_decode_result(bytes, result)),
        !(bytes.len() >= 3 && bytes[0] == 255 && bytes[1] == 216 && bytes[2] == 255) ==> (is_input(
            bytes,
            result,
        ) <==> png_decoded(bytes) == result),
{
}

/// Without a crop the picture goes out as it is.
pub proof fn law_uncropped_output_is_the_picture(
    picture: &RgbaImage,
    w: u32,
    h: u32,
    data: Seq<u8>,
)
    ensures
        is_output(picture, false, w, h, data) <==> w == picture.width && h == picture.height && data
            == picture.data@,
{
}

/// With a crop, the pixels inside the bounds of the visible part go out, but for the last column
/// and the last row, each in its place; nothing goes out where no pixel is visible.
pub proof fn law_cropped_output_is_the_visible_part(
    picture: &RgbaImage,
    w: u32,
    h: u32,
    data: Seq<u8>,
    bounds: (u32, u32, u32, u32),
    x: int,
    y: int,
    c: int,
)
    requires
        is_output(picture, true, w, h, data),
        tight_bounds(picture, bounds),
        0 <= x < w,
        0 <= y < h,
        0 <= c < 4,
    ensures
        has_visible(picture),
        w == bounds.2 - bounds.0,
        h == bounds.3 - bounds.1,
        data.len() == w * h * 4,
        data[(y * w + x) * 4 + c] == picture.data@[((bounds.1 + y) * picture.width + (bounds.0 + x))
            * 4 + c],
{
    let p = choose|p: (u32, u32, u32, u32)| #[trigger]
        tight_bounds(picture, p) && w == p.2 - p.0 && h == p.3 - p.1 && data == visible_window(
            picture,
            p,
        );
    law_tight_bounds_are_unique(picture, p, bounds);
    law_crop_starts_at_the_bounds(picture, bounds, x, y, c);
    let v = choose|v: int| visible(picture, bounds.0 as int, v);
    assert(visible(picture, bounds.0 as int, v));
}

/// Where a pixel is visible, a cropped picture goes out that has the size of the bounds without
/// their last column and row.
pub proof fn law_visible_picture_has_an_output(
    picture: &RgbaImage,
    bounds: (u32, u32, u32, u32),
)
    requires
        tight_bounds(picture, bounds),
    ensures
        exists|data: Seq<u8>| #[trigger]
            is_output(
                picture,
                true,
                (bounds.2 - bounds.0) as u32,
                (bounds.3 - bounds.1) as u32,
                data,
            ),
{
    law_tight_bounds_are_unique(picture, bounds, bounds);
    assert(is_output(
        picture,
        true,
        (bounds.2 - bounds.0) as u32,
        (bounds.3 - bounds.1) as u32,
        visible_window(picture, bounds),
    ));
}

/// Which sizes a PNG file can be encoded for, written out.
pub proof fn law_sizes_that_can_be_encoded(w: int, h: int)
    requires
        0 < w,
        0 < h,
    ensures
        encodable(w, h) <==> w * 4 + 1 <= u32::MAX && w * h * 16 <= isize::MAX,
        encodable(0, h),
        encodable(w, 0),
{
}

/// What goes out can be encoded where its size can be; where nothing goes out, nothing stands in
/// the way.
pub proof fn law_output_that_can_be_encoded(
    picture: &RgbaImage,
    crop: bool,
    w: u32,
    h: u32,
    data: Seq<u8>,
)
    ensures
        is_output(picture, crop, w, h, data) ==> (output_encodable(picture, crop) <==> encodable(
            w as int,
            h as int,
        )),
        crop && !has_visible(picture) ==> output_encodable(picture, crop),
{
    if is_output(picture, crop, w, h, data) {
        assert forall|a: u32, b: u32, d: Seq<u8>| #[trigger]
            is_output(picture, crop, a, b, d) implies a == w && b == h by {
            law_output_is_unique(picture, crop, (a, b, d), (w, h, data));
        }
    }
    if crop && !has_visible(picture) {
        assert forall|a: u32, b: u32, d: Seq<u8>| #[trigger]
            is_output(picture, crop, a, b, d) implies encodable(a as int, b as int) by {
            let bounds = choose|bounds: (u32, u32, u32, u32)| #[trigger]
                tight_bounds(picture, bounds);
            let y = choose|y: int| visible(picture, bounds.0 as int, y);
            assert(visible(picture, bounds.0 as int, y));
        }
    }
}

} // verus!
