//! Nearest-neighbour resizing, done by the `image` crate.
use vstd::prelude::*;
use crate::raster::{Raster, RgbaImage};

verus! {

/// The row-major RGBA bytes that `image::imageops::resize` with
/// `FilterType::Nearest` returns for a `width` x `height` RGBA image holding
/// `data`, resized to `new_width` x `new_height`.
pub uninterp spec fn nearest_resized(
    width: nat,
    height: nat,
    data: Seq<u8>,
    new_width: nat,
    new_height: nat,
) -> Seq<u8>;

/// Every pixel of `out` is an exact copy of some pixel of `src`.
pub open spec fn copies_source_pixels(src: Raster, out: Raster) -> bool {
    forall|x: int, y: int|
        #![trigger out.chan(x, y, 0)]
        out.in_bounds(x, y) ==> exists|sx: int, sy: int|
            #![trigger src.chan(sx, sy, 0)]
            src.in_bounds(sx, sy) && out.chan(x, y, 0) == src.chan(sx, sy, 0) && out.chan(x, y, 1)
                == src.chan(sx, sy, 1) && out.chan(x, y, 2) == src.chan(sx, sy, 2) && out.chan(
                x,
                y,
                3,
            ) == src.chan(sx, sy, 3)
}

/// The resize runs without a buffer size overflowing: the result buffer fits
/// in a `Vec`, and so does the `f32` working buffer of `width` x `new_height`
/// pixels that sampling allocates when the size changes and the source is not
/// empty.
pub open spec fn resize_fits(width: nat, height: nat, new_width: nat, new_height: nat) -> bool {
    &&& new_width * new_height * 4 <= isize::MAX
    &&& (width == new_width && height == new_height) || width == 0 || height == 0 || width
        * new_height * 16 <= isize::MAX
}

/// Calls `image::imageops::resize(.., FilterType::Nearest)` on an RGBA image.
///
/// Claimed of the call: its result is `nearest_resized` of the arguments and
/// holds `new_width * new_height` pixels; an image of unchanged size comes back
/// as it was; an empty source gives an all-zero image; otherwise every output
/// pixel is a copy of one source pixel (the nearest filter weighs exactly one
/// source pixel with weight one). Which source pixel is taken is computed in
/// `f32` by the crate and is not stated. `resize_fits` holds the bounds under
/// which the crate's buffer allocations do not panic.
#[verifier::external_body]
fn resize_nearest_bytes(
    width: u32,
    height: u32,
    data: &Vec<u8>,
    new_width: u32,
    new_height: u32,
) -> (out: Vec<u8>)
    requires
        data@.len() == width * height * 4,
        resize_fits(width as nat, height as nat, new_width as nat, new_height as nat),
    ensures
        out@ == nearest_resized(width as nat, height as nat, data@, new_width as nat, new_height as nat),
        out@.len() == new_width * new_height * 4,
        width == new_width && height == new_height ==> out@ == data@,
        width == 0 || height == 0 ==> forall|i: int| 0 <= i < out@.len() ==> out@[i] == 0,
        width > 0 && height > 0 ==> copies_source_pixels(
            Raster { width: width as nat, height: height as nat, data: data@ },
            Raster { width: new_width as nat, height: new_height as nat, data: out@ },
        ),
{
    let src = image::RgbaImage::from_raw(width, height, data.clone()).unwrap();
    image::imageops::resize(&src, new_width, new_height, image::imageops::FilterType::Nearest).into_raw()
}

/// The model of `img` resized to `new_width` x `new_height` by the nearest filter.
pub open spec fn resized(img: Raster, new_width: nat, new_height: nat) -> Raster {
    Raster {
        width: new_width,
        height: new_height,
        data: nearest_resized(img.width, img.height, img.data, new_width, new_height),
    }
}

/// Resizes `img` to exactly `new_width` x `new_height` with the nearest filter.
pub(crate) fn resize_nearest(img: &RgbaImage, new_width: u32, new_height: u32) -> (out: RgbaImage)
    requires
        img.wf(),
        resize_fits(img@.width, img@.height, new_width as nat, new_height as nat),
    ensures
        out.wf(),
        out@ == resized(img@, new_width as nat, new_height as nat),
        img@.width == new_width && img@.height == new_height ==> out@ == img@,
        img@.width == 0 || img@.height == 0 ==> forall|i: int|
            0 <= i < out@.data.len() ==> out@.data[i] == 0,
        img@.width > 0 && img@.height > 0 ==> copies_source_pixels(img@, out@),
{
    let (w, h) = img.dimensions();
    let data = resize_nearest_bytes(w, h, img.as_raw(), new_width, new_height);
    RgbaImage::from_parts(new_width, new_height, data)
}

} // verus!
