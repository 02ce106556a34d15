//! Raster images: eight-bit RGBA pictures and eight-bit masks, stored row by row.

use vstd::prelude::*;
use crate::arith::{
    lemma_area_monotone, lemma_offset_bound, lemma_offset_join, lemma_offset_split,
};

verus! {

/// An RGBA picture; the four channel bytes of a pixel are adjacent and the
/// pixels follow each other row by row.
#[derive(Debug, PartialEq, Eq)]
pub struct RgbaImage {
    pub width: u32,
    pub height: u32,
    pub data: Vec<u8>,
}

/// A mask with one byte per pixel, row by row.
#[derive(Debug, PartialEq, Eq)]
pub struct GrayImage {
    pub width: u32,
    pub height: u32,
    pub data: Vec<u8>,
}

/// The bytes of the `w` by `h` part of a mask that starts at column `x` and row
/// `y`, where a row of the mask is `stride` bytes long.
pub open spec fn gray_window(
    data: Seq<u8>,
    stride: int,
    x: int,
    y: int,
    w: int,
    h: int,
) -> Seq<u8> {
    Seq::new((w * h) as nat, |i: int| data[(y + i / w) * stride + (x + i % w)])
}

/// The bytes of the `w` by `h` part of a picture that starts at column `x` and
/// row `y`, where a row of the picture is `stride` pixels long.
pub open spec fn rgba_window(
    data: Seq<u8>,
    stride: int,
    x: int,
    y: int,
    w: int,
    h: int,
) -> Seq<u8> {
    Seq::new(
        (w * h * 4) as nat,
        |i: int| data[((y + i / 4 / w) * stride + (x + i / 4 % w)) * 4 + i % 4],
    )
}

/// The bytes of a picture after its alpha channel was replaced by `alpha`, one
/// byte per pixel; the colour channels are those of `data`.
pub open spec fn alpha_replaced(data: Seq<u8>, alpha: Seq<u8>) -> Seq<u8> {
    Seq::new(data.len(), |i: int| if i % 4 == 3 { alpha[i / 4] } else { data[i] })
}

/// The bytes of channel `c` of a picture, one byte per pixel.
pub open spec fn channel_plane(data: Seq<u8>, c: int) -> Seq<u8> {
    Seq::new(data.len() / 4, |p: int| data[p * 4 + c])
}

/// Whether two pictures of the same size differ in nothing but their alpha channels.
pub open spec fn same_colours(a: Seq<u8>, b: Seq<u8>) -> bool {
    &&& a.len() == b.len()
    &&& forall|i: int| 0 <= i < a.len() && i % 4 != 3 ==> #[trigger] a[i] == b[i]
}

impl RgbaImage {
    /// The buffer holds four bytes for each pixel.
    pub open spec fn wf(&self) -> bool {
        self.data.len() == self.width * self.height * 4
    }

    /// Channel `c` of the pixel in column `x` and row `y`.
    pub open spec fn channel(&self, x: int, y: int, c: int) -> u8 {
        self.data@[(y * self.width + x) * 4 + c]
    }

    /// A copy of the picture.
    pub fn duplicate(&self) -> (copy: RgbaImage)
        ensures
            copy.width == self.width,
            copy.height == self.height,
            copy.data@ == self.data@,
    {
        RgbaImage { width: self.width, height: self.height, data: copy_bytes(&self.data) }
    }

    /// Copies the `w` by `h` part that starts at column `x` and row `y`.
    pub fn crop(&self, x: u32, y: u32, w: u32, h: u32) -> (part: RgbaImage)
        requires
            self.wf(),
            x + w <= self.width,
            y + h <= self.height,
        ensures
            part.wf(),
            part.width == w,
            part.height == h,
            part.data@ == rgba_window(
                self.data@,
                self.width as int,
                x as int,
                y as int,
                w as int,
                h as int,
            ),
    {
        let mut data: Vec<u8> = Vec::new();
        let wide: usize = w as usize;
        let stride: usize = self.width as usize;
        proof {
            lemma_area_monotone(w as int, h as int, self.width as int, self.height as int);
        }
        let total: usize = wide * (h as usize) * 4;
        let mut i: usize = 0;
        while i < total
            invariant
                self.wf(),
                x + w <= self.width,
                y + h <= self.height,
                wide == w,
                stride == self.width,
                total == w * h * 4,
                0 <= i <= total,
                data@.len() == i,
                forall|k: int|
                    0 <= k < i ==> data@[k] == #[trigger] rgba_window(
                        self.data@,
                        self.width as int,
                        x as int,
                        y as int,
                        w as int,
                        h as int,
                    )[k],
            decreases total - i,
        {
            let cell: usize = i / 4;
            proof {
                assert(0 <= cell < w * h);
                lemma_offset_split(cell as int, w as int, h as int);
                lemma_offset_bound(
                    x + cell as int % w as int,
                    y + cell as int / w as int,
                    self.width as int,
                    self.height as int,
                );
            }
            let row: usize = (y as usize) + cell / wide;
            let col: usize = (x as usize) + cell % wide;
            let at: usize = (row * stride + col) * 4 + i % 4;
            data.push(self.data[at]);
            i = i + 1;
        }
        RgbaImage { width: w, height: h, data }
    }

    /// Replaces the alpha channel; the colour channels stay as they are.
    pub fn set_alpha(&mut self, alpha: &Vec<u8>)
        requires
            old(self).wf(),
            alpha@.len() == old(self).width * old(self).height,
        ensures
            final(self).wf(),
            final(self).width == old(self).width,
            final(self).height == old(self).height,
            final(self).data@ == alpha_replaced(old(self).data@, alpha@),
    {
        let ghost before = self.data@;
        let total: usize = alpha.len();
        let mut i: usize = 0;
        while i < total
            invariant
                total == alpha@.len(),
                before.len() == total * 4,
                self.data.len() == before.len(),
                self.width == old(self).width,
                self.height == old(self).height,
                0 <= i <= total,
                forall|k: int|
                    0 <= k < before.len() ==> #[trigger] self.data@[k] == (if k < i * 4 && k % 4
                        == 3 {
                        alpha@[k / 4]
                    } else {
                        before[k]
                    }),
            decreases total - i,
        {
            let level: u8 = alpha[i];
            self.data.set(i * 4 + 3, level);
            i = i + 1;
        }
        assert(self.data@ =~= alpha_replaced(before, alpha@));
    }
}

impl GrayImage {
    /// The buffer holds one byte for each pixel.
    pub open spec fn wf(&self) -> bool {
        self.data.len() == self.width * self.height
    }

    /// The level of the pixel in column `x` and row `y`.
    pub open spec fn level(&self, x: int, y: int) -> u8 {
        self.data@[y * self.width + x]
    }

    /// The level of the pixel in column `x` and row `y`.
    pub fn get(&self, x: u32, y: u32) -> (level: u8)
        requires
            self.wf(),
            x < self.width,
            y < self.height,
        ensures
            level == self.level(x as int, y as int),
    {
        proof {
            lemma_offset_bound(x as int, y as int, self.width as int, self.height as int);
        }
        self.data[(y as usize) * (self.width as usize) + (x as usize)]
    }

    /// Copies the `w` by `h` part that starts at column `x` and row `y`.
    pub fn crop(&self, x: u32, y: u32, w: u32, h: u32) -> (part: GrayImage)
        requires
            self.wf(),
            x + w <= self.width,
            y + h <= self.height,
        ensures
            part.wf(),
            part.width == w,
            part.height == h,
            part.data@ == gray_window(
                self.data@,
                self.width as int,
                x as int,
                y as int,
                w as int,
                h as int,
            ),
    {
        let mut data: Vec<u8> = Vec::new();
        let wide: usize = w as usize;
        let stride: usize = self.width as usize;
        proof {
            lemma_area_monotone(w as int, h as int, self.width as int, self.height as int);
        }
        let total: usize = wide * (h as usize);
        let mut i: usize = 0;
        while i < total
            invariant
                self.wf(),
                x + w <= self.width,
                y + h <= self.height,
                wide == w,
                stride == self.width,
                total == w * h,
                0 <= i <= total,
                data@.len() == i,
                forall|k: int|
                    0 <= k < i ==> data@[k] == #[trigger] gray_window(
                        self.data@,
                        self.width as int,
                        x as int,
                        y as int,
                        w as int,
                        h as int,
                    )[k],
            decreases total - i,
        {
            proof {
                lemma_offset_split(i as int, w as int, h as int);
                lemma_offset_bound(
                    x + i as int % w as int,
                    y + i as int / w as int,
                    self.width as int,
                    self.height as int,
                );
            }
            let row: usize = (y as usize) + i / wide;
            let col: usize = (x as usize) + i % wide;
            data.push(self.data[row * stride + col]);
            i = i + 1;
        }
        GrayImage { width: w, height: h, data }
    }
}

/// A copy of a byte buffer.
pub fn copy_bytes(bytes: &Vec<u8>) -> (copy: Vec<u8>)
    ensures
        copy@ == bytes@,
{
    let mut copy: Vec<u8> = Vec::new();
    let total: usize = bytes.len();
    let mut i: usize = 0;
    while i < total
        invariant
            total == bytes@.len(),
            0 <= i <= total,
            copy@ == bytes@.take(i as int),
        decreases total - i,
    {
        copy.push(bytes[i]);
        assert(bytes@.take(i + 1) =~= bytes@.take(i as int).push(bytes@[i as int]));
        i = i + 1;
    }
    assert(bytes@.take(total as int) =~= bytes@);
    copy
}

/// Replacing the alpha channel changes nothing but the alpha of each pixel, which becomes the
/// new one.
pub proof fn law_alpha_replaced_keeps_the_colours(
    data: Seq<u8>,
    alpha: Seq<u8>,
    pixel: int,
    c: int,
)
    requires
        data.len() == alpha.len() * 4,
        0 <= pixel < alpha.len(),
        0 <= c < 3,
    ensures
        alpha_replaced(data, alpha).len() == data.len(),
        alpha_replaced(data, alpha)[pixel * 4 + c] == data[pixel * 4 + c],
        alpha_replaced(data, alpha)[pixel * 4 + 3] == alpha[pixel],
{
}

/// A picture whose alpha channel is replaced keeps its colours, and what its alpha channel was
/// before makes no difference.
pub proof fn law_old_alpha_is_forgotten(a: Seq<u8>, b: Seq<u8>, alpha: Seq<u8>)
    requires
        same_colours(a, b),
    ensures
        same_colours(a, alpha_replaced(a, alpha)),
        alpha_replaced(a, alpha) == alpha_replaced(b, alpha),
{
    assert(alpha_replaced(a, alpha) =~= alpha_replaced(b, alpha));
}

/// The pixel in column `c` and row `r` of a part of a picture is the pixel that lies as far to
/// the right of, and below, the place where the part starts.
pub proof fn law_window_is_a_part_of_the_picture(
    data: Seq<u8>,
    stride: int,
    x: int,
    y: int,
    w: int,
    h: int,
    c: int,
    r: int,
    channel: int,
)
    requires
        0 <= c < w,
        0 <= r < h,
        0 <= channel < 4,
    ensures
        rgba_window(data, stride, x, y, w, h).len() == w * h * 4,
        0 <= (r * w + c) * 4 + channel < w * h * 4,
        rgba_window(data, stride, x, y, w, h)[(r * w + c) * 4 + channel] == data[((y + r) * stride
            + (x + c)) * 4 + channel],
{
    lemma_offset_bound(c, r, w, h);
    lemma_offset_join(c, r, w);
    let cell = r * w + c;
    let i = cell * 4 + channel;
    assert(i / 4 == cell && i % 4 == channel);
}

/// The level in column `c` and row `r` of a part of a mask is the level that lies as far to the
/// right of, and below, the place where the part starts.
pub proof fn law_window_is_a_part_of_the_mask(
    data: Seq<u8>,
    stride: int,
    x: int,
    y: int,
    w: int,
    h: int,
    c: int,
    r: int,
)
    requires
        0 <= c < w,
        0 <= r < h,
    ensures
        gray_window(data, stride, x, y, w, h).len() == w * h,
        0 <= r * w + c < w * h,
        gray_window(data, stride, x, y, w, h)[r * w + c] == data[(y + r) * stride + (x + c)],
{
    lemma_offset_bound(c, r, w, h);
    lemma_offset_join(c, r, w);
}

/// A picture or a mask is valid where its buffer has the bytes of its pixels, row by row, and
/// none besides.
pub proof fn law_pixels_are_stored_row_by_row(
    picture: &RgbaImage,
    mask: &GrayImage,
    x: int,
    y: int,
    c: int,
)
    ensures
        picture.wf() <==> picture.data@.len() == picture.width * picture.height * 4,
        mask.wf() <==> mask.data@.len() == mask.width * mask.height,
        picture.channel(x, y, c) == picture.data@[(y * picture.width + x) * 4 + c],
        mask.level(x, y) == mask.data@[y * mask.width + x],
{
}

/// The plane of a channel holds the channel's byte of each pixel.
pub proof fn law_plane_holds_one_byte_per_pixel(data: Seq<u8>, c: int, p: int)
    requires
        0 <= p < data.len() / 4,
    ensures
        channel_plane(data, c).len() == data.len() / 4,
        channel_plane(data, c)[p] == data[p * 4 + c],
{
}

/// Pictures have the same colours where the first three channels of all their pixels agree.
pub proof fn law_same_colours_compares_three_channels(a: Seq<u8>, b: Seq<u8>, pixels: int)
    requires
        a.len() == pixels * 4,
        b.len() == pixels * 4,
    ensures
        same_colours(a, b) <==> forall|p: int, c: int|
            0 <= p < pixels && 0 <= c < 3 ==> a[#[trigger] (p * 4 + c)] == b[p * 4 + c],
{
    if same_colours(a, b) {
        assert forall|p: int, c: int| 0 <= p < pixels && 0 <= c < 3 implies a[#[trigger] (p * 4
            + c)] == b[p * 4 + c] by {
            assert((p * 4 + c) % 4 == c);
        }
    }
    if forall|p: int, c: int|
        0 <= p < pixels && 0 <= c < 3 ==> a[#[trigger] (p * 4 + c)] == b[p * 4 + c] {
        assert forall|i: int| 0 <= i < a.len() && i % 4 != 3 implies #[trigger] a[i] == b[i] by {
            let p = i / 4;
            let c = i % 4;
            assert(a[p * 4 + c] == b[p * 4 + c]);
        }
    }
}

} // verus!
