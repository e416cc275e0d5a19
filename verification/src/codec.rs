//! Decoding and PNG encoding of image files, done by the `image` crate.
use vstd::prelude::*;

verus! {

/// What `image::load_from_memory` followed by `to_rgba8` makes of the bytes:
/// `None` when the crate reports an error, else the width, height and
/// row-major RGBA bytes of the decoded image.
pub uninterp spec fn decoded_rgba(data: Seq<u8>) -> Option<(nat, nat, Seq<u8>)>;

/// The bytes that `DynamicImage::write_to(.., ImageFormat::Png)` writes for a
/// `width` x `height` RGBA image holding `data`; `None` when it reports an error.
pub uninterp spec fn png_encoded(width: nat, height: nat, data: Seq<u8>) -> Option<Seq<u8>>;

/// Calls `image::load_from_memory` and converts the image to 8-bit RGBA.
///
/// Claimed of the call: the result is `decoded_rgba` of the bytes, and a
/// decoded image holds four bytes per pixel (as every `RgbaImage` does) in a
/// `Vec`, which never holds more than `isize::MAX` bytes.
#[verifier::external_body]
pub(crate) fn decode_rgba(data: &[u8]) -> (res: Option<(u32, u32, Vec<u8>)>)
    ensures
        res is None <==> decoded_rgba(data@) is None,
        res matches Some((w, h, bytes)) ==> decoded_rgba(data@) == Some(
            (w as nat, h as nat, bytes@),
        ) && bytes@.len() == w * h * 4 && bytes@.len() <= isize::MAX,
{
    match image::load_from_memory(data) {
        Ok(img) => {
            let rgba = img.to_rgba8();
            Some((rgba.width(), rgba.height(), rgba.into_raw()))
        },
        Err(_) => None,
    }
}

/// Calls `DynamicImage::write_to` with `ImageFormat::Png` on an RGBA image,
/// writing into memory.
///
/// Claimed of the call: the result is `png_encoded` of the arguments.
#[verifier::external_body]
pub(crate) fn encode_png(width: u32, height: u32, data: &Vec<u8>) -> (res: Option<Vec<u8>>)
    requires
        data@.len() == width * height * 4,
    ensures
        res is None <==> png_encoded(width as nat, height as nat, data@) is None,
        res matches Some(bytes) ==> png_encoded(width as nat, height as nat, data@) == Some(
            bytes@,
        ),
{
    let img = image::RgbaImage::from_raw(width, height, data.clone()).unwrap();
    let mut buffer = std::io::Cursor::new(Vec::new());
    match image::DynamicImage::ImageRgba8(img).write_to(&mut buffer, image::ImageFormat::Png) {
        Ok(()) => Some(buffer.into_inner()),
        Err(_) => None,
    }
}

} // verus!
