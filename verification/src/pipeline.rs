//! The paint pipeline: downscale, optional Kuwahara smoothing, edge detection
//! on the smoothed image, palette quantization, optional outline overlay,
//! upscale.
use vstd::prelude::*;
use crate::codec::{decode_rgba, decoded_rgba, encode_png, png_encoded};
use crate::config::{default_config, PaintConfig};
use crate::edges::{dark_in_mask, overlaid, overlay_chan, overlay_edges, sobel, sobel_edges};
use crate::kuwahara::{kuwahara, kuwahara_filter};
use crate::palette::{
    has_palette_color, lemma_quantize_keeps_palette_images, lemma_quantized_only_palette,
    only_palette_colors, quantize_colors,
    quantized, MS_PAINT_EXTENDED, MS_PAINT_PALETTE,
};
use crate::raster::{lemma_raster_from_chan, Raster, RgbaImage};
use crate::resample::{copies_source_pixels, resize_fits, resize_nearest, resized};

verus! {

/// The palette that the configuration selects.
pub open spec fn palette_for(extended: bool) -> Seq<[u8; 3]> {
    if extended {
        MS_PAINT_EXTENDED@
    } else {
        MS_PAINT_PALETTE@
    }
}

/// The image smoothed by the Kuwahara filter with the given radius, if any.
pub open spec fn smoothed(small: Raster, radius: Option<u32>) -> Raster {
    match radius {
        Some(r) => kuwahara(small, r as int),
        None => small,
    }
}

/// The painting stages on an already downscaled image: optional Kuwahara
/// smoothing, palette quantization, and optional outlines where the edge mask
/// of the smoothed image is dark.
pub open spec fn paint_stages(small: Raster, config: PaintConfig) -> Raster {
    let pal = palette_for(config.extended_palette);
    let smooth = smoothed(small, config.kuwahara_radius);
    let colored = quantized(smooth, pal);
    if config.edge_overlay {
        overlaid(colored, sobel(smooth))
    } else {
        colored
    }
}

/// The small painted image, before it is scaled back up.
pub open spec fn painted_small(img: Raster, config: PaintConfig) -> Raster {
    let f = config.downscale_factor as nat;
    paint_stages(resized(img, img.width / f, img.height / f), config)
}

/// The downscaled image, smoothed when a Kuwahara radius is configured.
pub open spec fn smoothed_small(img: Raster, config: PaintConfig) -> Raster {
    let f = config.downscale_factor as nat;
    smoothed(resized(img, img.width / f, img.height / f), config.kuwahara_radius)
}

/// The model of an optional edge mask.
pub open spec fn mask_of(edges: Option<RgbaImage>) -> Option<Raster> {
    match edges {
        Some(e) => Some(e@),
        None => None,
    }
}

/// A colour-mapped small image with its outlines drawn where the edge mask,
/// if any, is dark.
pub open spec fn outlined(colored: Raster, edges: Option<Raster>) -> Raster {
    match edges {
        Some(e) => overlaid(colored, e),
        None => colored,
    }
}

/// The last stages of the pipeline: outlines, then, with `preserve_aspect`,
/// the nearest-filter upscale to `width` x `height`.
pub open spec fn finished(
    colored: Raster,
    edges: Option<Raster>,
    width: nat,
    height: nat,
    preserve_aspect: bool,
) -> Raster {
    if preserve_aspect {
        resized(outlined(colored, edges), width, height)
    } else {
        outlined(colored, edges)
    }
}

/// The painted image: the small painted image, scaled back to the input size
/// when `preserve_aspect` is set.
pub open spec fn painted(img: Raster, config: PaintConfig) -> Raster {
    let small = painted_small(img, config);
    if config.preserve_aspect {
        resized(small, img.width, img.height)
    } else {
        small
    }
}

/// Painting is the first stages, the colour mapping, then the last stages:
/// `paintify` equals `smooth_small`, then `quantize_colors`, then
/// `finish_painting`.
pub proof fn lemma_painted_in_stages(img: Raster, config: PaintConfig)
    ensures
        painted(img, config) == finished(
            quantized(smoothed_small(img, config), palette_for(config.extended_palette)),
            if config.edge_overlay {
                Some(sobel(smoothed_small(img, config)))
            } else {
                None
            },
            img.width,
            img.height,
            config.preserve_aspect,
        ),
{
}

/// Every pixel painted by the stages has a colour of the palette the
/// configuration asks for: one of the classic 16 without `extended_palette`,
/// one of the 28 with it (outlines are black, which both hold).
pub proof fn lemma_paint_stages_use_chosen_palette(small: Raster, config: PaintConfig)
    ensures
        only_palette_colors(
            paint_stages(small, config),
            if config.extended_palette {
                MS_PAINT_EXTENDED@
            } else {
                MS_PAINT_PALETTE@
            },
        ),
{
    let pal = palette_for(config.extended_palette);
    lemma_palettes_start_black(config.extended_palette);
    let smooth = smoothed(small, config.kuwahara_radius);
    lemma_quantized_only_palette(smooth, pal);
    if config.edge_overlay {
        lemma_overlaid_only_palette(quantized(smooth, pal), sobel(smooth), pal);
    }
}

/// The palette is the one the configuration asks for: without smoothing or
/// outlines, an image drawn only in colours of the 28-colour palette (when
/// `extended_palette` is on) or of the classic 16 (when it is off) is left as
/// it is by the painting stages.
pub proof fn lemma_palette_images_unchanged(img: Raster, config: PaintConfig)
    requires
        img.wf(),
        config.kuwahara_radius is None,
        !config.edge_overlay,
        only_palette_colors(
            img,
            if config.extended_palette {
                MS_PAINT_EXTENDED@
            } else {
                MS_PAINT_PALETTE@
            },
        ),
    ensures
        paint_stages(img, config) == img,
{
    lemma_palettes_start_black(config.extended_palette);
    lemma_quantize_keeps_palette_images(img, palette_for(config.extended_palette));
}

/// The two resizes of the pipeline fit in memory (see `resize_fits`).
pub open spec fn pipeline_fits(img: Raster, config: PaintConfig) -> bool {
    sizes_fit(img.width, img.height, config.downscale_factor as nat, config.preserve_aspect)
}

/// Both resizes for an image of `width` x `height` and the given factor fit.
pub open spec fn sizes_fit(width: nat, height: nat, factor: nat, preserve_aspect: bool) -> bool {
    &&& resize_fits(width, height, width / factor, height / factor)
    &&& preserve_aspect ==> resize_fits(width / factor, height / factor, width, height)
}

/// The configuration can be run: a non-zero downscale factor.
pub open spec fn runnable(config: PaintConfig) -> bool {
    config.downscale_factor > 0
}

/// Both palettes start with black.
proof fn lemma_palettes_start_black(extended: bool)
    ensures
        palette_for(extended).len() > 0,
        palette_for(extended)[0][0] == 0,
        palette_for(extended)[0][1] == 0,
        palette_for(extended)[0][2] == 0,
{
}

/// Painting the mask's dark pixels black keeps a palette that holds black.
proof fn lemma_overlaid_only_palette(buf: Raster, edges: Raster, pal: Seq<[u8; 3]>)
    requires
        only_palette_colors(buf, pal),
        pal.len() > 0,
        pal[0][0] == 0 && pal[0][1] == 0 && pal[0][2] == 0,
    ensures
        only_palette_colors(overlaid(buf, edges), pal),
{
    let o = overlaid(buf, edges);
    assert forall|x: int, y: int| #[trigger] o.in_bounds(x, y) implies has_palette_color(
        o,
        x,
        y,
        pal,
    ) by {
        let f = |x: int, y: int, c: int| overlay_chan(buf, edges, x, y, c);
        lemma_raster_from_chan(buf.width, buf.height, f, x, y, 0);
        lemma_raster_from_chan(buf.width, buf.height, f, x, y, 1);
        lemma_raster_from_chan(buf.width, buf.height, f, x, y, 2);
        if dark_in_mask(edges, x, y) {
            assert(o.chan(x, y, 0) == pal[0][0]);
        } else {
            assert(buf.in_bounds(x, y));
            assert(has_palette_color(buf, x, y, pal));
            let k = choose|k: int|
                0 <= k < pal.len() && buf.chan(x, y, 0) == #[trigger] pal[k][0] && buf.chan(x, y, 1)
                    == pal[k][1] && buf.chan(x, y, 2) == pal[k][2];
            assert(o.chan(x, y, 0) == pal[k][0]);
        }
    }
}

/// Resizing keeps a palette that holds black: every pixel copies a source
/// pixel, or is zero when the source is empty.
proof fn lemma_resized_only_palette(src: Raster, out: Raster, pal: Seq<[u8; 3]>)
    requires
        only_palette_colors(src, pal),
        pal.len() > 0,
        pal[0][0] == 0 && pal[0][1] == 0 && pal[0][2] == 0,
        out.wf(),
        src.width > 0 && src.height > 0 ==> copies_source_pixels(src, out),
        src.width == 0 || src.height == 0 ==> forall|i: int|
            0 <= i < out.data.len() ==> out.data[i] == 0,
    ensures
        only_palette_colors(out, pal),
{
    assert forall|x: int, y: int| #[trigger] out.in_bounds(x, y) implies has_palette_color(
        out,
        x,
        y,
        pal,
    ) by {
        crate::raster::lemma_byte_index_bounds(out.width, out.height, x, y, 0);
        crate::raster::lemma_byte_index_bounds(out.width, out.height, x, y, 1);
        crate::raster::lemma_byte_index_bounds(out.width, out.height, x, y, 2);
        if src.width > 0 && src.height > 0 {
            let (sx, sy) = choose|sx: int, sy: int|
                src.in_bounds(sx, sy) && out.chan(x, y, 0) == src.chan(sx, sy, 0) && out.chan(
                    x,
                    y,
                    1,
                ) == src.chan(sx, sy, 1) && out.chan(x, y, 2) == src.chan(sx, sy, 2) && out.chan(
                    x,
                    y,
                    3,
                ) == src.chan(sx, sy, 3);
            assert(src.in_bounds(sx, sy));
            assert(has_palette_color(src, sx, sy, pal));
            let k = choose|k: int|
                0 <= k < pal.len() && src.chan(sx, sy, 0) == #[trigger] pal[k][0] && src.chan(
                    sx,
                    sy,
                    1,
                ) == pal[k][1] && src.chan(sx, sy, 2) == pal[k][2];
            assert(out.chan(x, y, 0) == pal[k][0]);
        } else {
            assert(out.chan(x, y, 0) == pal[0][0]);
        }
    }
}

/// The stages before colour mapping: the nearest-filter downscale by
/// `downscale_factor`, the optional Kuwahara smoothing, and, when outlines are
/// on, the Sobel edge mask of the smoothed image.
pub fn smooth_small(img: &RgbaImage, config: &PaintConfig) -> (out: (RgbaImage, Option<RgbaImage>))
    requires
        img.wf(),
        runnable(*config),
        resize_fits(
            img@.width,
            img@.height,
            img@.width / (config.downscale_factor as nat),
            img@.height / (config.downscale_factor as nat),
        ),
    ensures
        out.0.wf(),
        out.0@ == smoothed_small(img@, *config),
        out.0@.width == img@.width / (config.downscale_factor as nat),
        out.0@.height == img@.height / (config.downscale_factor as nat),
        config.downscale_factor == 1 ==> out.0@ == smoothed(img@, config.kuwahara_radius),
        out.1 is Some <==> config.edge_overlay,
        out.1 matches Some(e) ==> e.wf() && e@ == sobel(out.0@),
{
    let (orig_w, orig_h) = img.dimensions();
    let new_w = orig_w / config.downscale_factor;
    let new_h = orig_h / config.downscale_factor;
    let small = resize_nearest(img, new_w, new_h);
    if config.downscale_factor == 1 {
        let ghost f = config.downscale_factor;
        assert(new_w == orig_w && new_h == orig_h) by (nonlinear_arith)
            requires
                new_w == orig_w / f,
                new_h == orig_h / f,
                f == 1,
        ;
        assert(small@ == img@);
    }
    let buf = match config.kuwahara_radius {
        Some(radius) => kuwahara_filter(&small, radius),
        None => small,
    };
    let edges = if config.edge_overlay {
        Some(sobel_edges(&buf))
    } else {
        None
    };
    (buf, edges)
}

/// The stages after colour mapping: black outlines where the edge mask, if
/// any, is dark, then, with `preserve_aspect`, the nearest-filter upscale to
/// `width` x `height`.
pub fn finish_painting(
    buf: RgbaImage,
    edges: Option<RgbaImage>,
    width: u32,
    height: u32,
    preserve_aspect: bool,
) -> (out: RgbaImage)
    requires
        buf.wf(),
        edges matches Some(e) ==> e.wf(),
        preserve_aspect ==> resize_fits(buf@.width, buf@.height, width as nat, height as nat),
    ensures
        out.wf(),
        out@ == finished(buf@, mask_of(edges), width as nat, height as nat, preserve_aspect),
        ({
            let lined = outlined(buf@, mask_of(edges));
            &&& lined.width == width && lined.height == height ==> out@ == lined
            &&& preserve_aspect && lined.width > 0 && lined.height > 0 ==> copies_source_pixels(lined, out@)
            &&& preserve_aspect && (lined.width == 0 || lined.height == 0) ==> forall|i: int|
                0 <= i < out@.data.len() ==> out@.data[i] == 0
        }),
{
    let mut buf = buf;
    match edges {
        Some(edge_mask) => {
            overlay_edges(&mut buf, &edge_mask);
        },
        None => {},
    }
    if preserve_aspect {
        resize_nearest(&buf, width, height)
    } else {
        buf
    }
}

/// Turns an image into an MS Paint drawing.
///
/// The image is shrunk by `downscale_factor` with the nearest filter,
/// optionally smoothed by the Kuwahara filter, mapped to the selected palette,
/// optionally outlined where the Sobel edge mask of the smoothed image is dark,
/// and, with `preserve_aspect`, scaled back to its size with the nearest
/// filter. Every pixel of the result has a palette colour. `dithering` does
/// not change the result here: ordered dithering works in floating point, and
/// a caller that wants it runs it between `smooth_small` and
/// `finish_painting`.
pub fn paintify(img: &RgbaImage, config: &PaintConfig) -> (out: RgbaImage)
    requires
        img.wf(),
        runnable(*config),
        pipeline_fits(img@, *config),
    ensures
        out.wf(),
        out@ == painted(img@, *config),
        out@.width == (if config.preserve_aspect {
            img@.width
        } else {
            img@.width / (config.downscale_factor as nat)
        }),
        out@.height == (if config.preserve_aspect {
            img@.height
        } else {
            img@.height / (config.downscale_factor as nat)
        }),
        only_palette_colors(out@, palette_for(config.extended_palette)),
        config.downscale_factor == 1 ==> out@ == paint_stages(img@, *config),
        ({
            let small = painted_small(img@, *config);
            &&& config.preserve_aspect && small.width > 0 && small.height > 0 ==> copies_source_pixels(small, out@)
            &&& config.preserve_aspect && (small.width == 0 || small.height == 0) ==> forall|i: int|
                0 <= i < out@.data.len() ==> out@.data[i] == 0
        }),
{
    let (orig_w, orig_h) = img.dimensions();
    let palette: &[[u8; 3]] = if config.extended_palette {
        &MS_PAINT_EXTENDED
    } else {
        &MS_PAINT_PALETTE
    };
    let ghost pal = palette_for(config.extended_palette);
    assert(palette@ == pal);
    proof {
        lemma_palettes_start_black(config.extended_palette);
    }
    let (mut buf, edges) = smooth_small(img, config);
    let ghost smooth = buf@;
    quantize_colors(&mut buf, palette);
    proof {
        lemma_quantized_only_palette(smooth, pal);
        if let Some(e) = mask_of(edges) {
            lemma_overlaid_only_palette(buf@, e, pal);
        }
    }
    let ghost lined = outlined(buf@, mask_of(edges));
    assert(lined == painted_small(img@, *config));
    assert(config.downscale_factor == 1 ==> lined == paint_stages(img@, *config));
    let out = finish_painting(buf, edges, orig_w, orig_h, config.preserve_aspect);
    proof {
        if config.preserve_aspect {
            lemma_resized_only_palette(lined, out@, pal);
        }
    }
    out
}

/// `paintify` with the default settings.
pub fn paintify_default(img: &RgbaImage) -> (out: RgbaImage)
    requires
        img.wf(),
        pipeline_fits(img@, default_config()),
    ensures
        out.wf(),
        out@ == painted(img@, default_config()),
        out@.width == img@.width,
        out@.height == img@.height,
        only_palette_colors(out@, palette_for(false)),
{
    paintify(img, &PaintConfig::default())
}

/// The default settings with the given downscale factor, as
/// `PaintConfig::default().chunky(pixel_size)` builds them.
pub open spec fn chunky_config(pixel_size: u32) -> PaintConfig {
    PaintConfig { downscale_factor: pixel_size, ..default_config() }
}

/// `paintify_default` is `paintify` with `PaintConfig::default()`: the
/// defaults can always be run, so both accept exactly the well-formed images
/// that fit the pipeline, and both give the image painted with the defaults,
/// which is also what `paintify_chunky` gives with factor 4.
pub proof fn lemma_paintify_default_is_paintify(img: Raster)
    ensures
        runnable(default_config()),
        pipeline_fits(img, chunky_config(4)) == pipeline_fits(img, default_config()),
        painted(img, chunky_config(4)) == painted(img, default_config()),
{
    assert(chunky_config(4) == default_config());
}

/// `paintify_chunky` is `paintify` with
/// `PaintConfig::default().chunky(pixel_size)`: it can run exactly when the
/// pixel size is non-zero, and it keeps the input's size.
pub proof fn lemma_paintify_chunky_is_paintify(img: Raster, pixel_size: u32)
    ensures
        chunky_config(pixel_size) == (PaintConfig { downscale_factor: pixel_size, ..default_config() }),
        runnable(chunky_config(pixel_size)) <==> pixel_size > 0,
        chunky_config(pixel_size).preserve_aspect,
        painted(img, chunky_config(pixel_size)).width == img.width,
        painted(img, chunky_config(pixel_size)).height == img.height,
{
}

/// `paintify` with the default settings and the given downscale factor.
pub fn paintify_chunky(img: &RgbaImage, pixel_size: u32) -> (out: RgbaImage)
    requires
        img.wf(),
        pixel_size > 0,
        pipeline_fits(img@, chunky_config(pixel_size)),
    ensures
        out.wf(),
        out@ == painted(img@, chunky_config(pixel_size)),
        out@.width == img@.width,
        out@.height == img@.height,
        only_palette_colors(out@, palette_for(false)),
{
    paintify(img, &PaintConfig::default().chunky(pixel_size))
}

/// The settings that the web entry point uses.
pub open spec fn web_config(pixel_size: u32, extended_palette: bool) -> PaintConfig {
    PaintConfig { downscale_factor: pixel_size, extended_palette, ..default_config() }
}

/// The PNG bytes of an image, or nothing when encoding fails.
pub open spec fn png_or_empty(img: Raster) -> Seq<u8> {
    match png_encoded(img.width, img.height, img.data) {
        Some(bytes) => bytes,
        None => Seq::empty(),
    }
}

/// What the web entry point returns for the given file bytes: the PNG bytes of
/// the painted image; nothing when the input does not decode, when the pixel
/// size is zero, when the image is too large for the pipeline's buffers, or
/// when encoding fails.
pub open spec fn painted_png(input: Seq<u8>, pixel_size: u32, extended_palette: bool) -> Seq<u8> {
    match decoded_rgba(input) {
        None => Seq::empty(),
        Some((w, h, data)) => if pixel_size == 0 || !sizes_fit(w, h, pixel_size as nat, true) {
            Seq::empty()
        } else {
            png_or_empty(
                painted(Raster { width: w, height: h, data }, web_config(pixel_size, extended_palette)),
            )
        },
    }
}

/// The web entry point paints the decoded image with the default settings,
/// the pixel size as downscale factor and the given palette choice (what
/// `PaintConfig::default().chunky(pixel_size).extended_palette(extended_palette)`
/// builds), whenever the pixel size is non-zero and the buffers fit.
pub proof fn lemma_web_paints_with_pixel_size(input: Seq<u8>, pixel_size: u32, extended_palette: bool)
    ensures
        match decoded_rgba(input) {
            Some((w, h, data)) => pixel_size > 0 && sizes_fit(w, h, pixel_size as nat, true)
                ==> painted_png(input, pixel_size, extended_palette) == png_or_empty(
                painted(
                    Raster { width: w, height: h, data },
                    PaintConfig {
                        downscale_factor: pixel_size,
                        extended_palette: extended_palette,
                        dithering: false,
                        preserve_aspect: true,
                        kuwahara_radius: None,
                        edge_overlay: false,
                    },
                ),
            ),
            None => painted_png(input, pixel_size, extended_palette).len() == 0,
        },
{
}

/// With a downscale factor of at least 4, both resizes fit whenever the image
/// itself fits in a `Vec`.
proof fn lemma_large_factor_fits(w: nat, h: nat, f: nat)
    requires
        f >= 4,
        w * h * 4 <= isize::MAX,
    ensures
        sizes_fit(w, h, f, true),
{
    let nw = w / f;
    let nh = h / f;
    assert(nw * 4 <= w && nh * 4 <= h) by (nonlinear_arith)
        requires
            f >= 4,
            nw == w / f,
            nh == h / f,
    ;
    assert(nw * nh * 4 <= w * h * 4 && w * nh * 16 <= w * h * 4 && nw * h * 16 <= w * h * 4)
        by (nonlinear_arith)
        requires
            nw * 4 <= w,
            nh * 4 <= h,
    ;
}

/// `resize_fits`, computed.
fn resize_fits_exec(width: u32, height: u32, new_width: u32, new_height: u32) -> (b: bool)
    ensures
        b == resize_fits(width as nat, height as nat, new_width as nat, new_height as nat),
{
    let limit = isize::MAX as u128;
    let nw = new_width as u128;
    let nh = new_height as u128;
    let w = width as u128;
    assert(nw * nh <= 0xffff_ffff * 0xffff_ffff && w * nh <= 0xffff_ffff * 0xffff_ffff)
        by (nonlinear_arith)
        requires
            w <= 0xffff_ffff,
            nw <= 0xffff_ffff,
            nh <= 0xffff_ffff,
    ;
    let out_len = nw * nh * 4;
    let work_len = w * nh * 16;
    out_len <= limit && ((width == new_width && height == new_height) || width == 0 || height == 0
        || work_len <= limit)
}

/// Whether both resizes of the pipeline fit for an image of `width` x
/// `height` with the given downscale factor (see `sizes_fit`).
pub fn sizes_fit_exec(width: u32, height: u32, factor: u32, preserve_aspect: bool) -> (b: bool)
    requires
        factor > 0,
    ensures
        b == sizes_fit(width as nat, height as nat, factor as nat, preserve_aspect),
{
    let nw = width / factor;
    let nh = height / factor;
    resize_fits_exec(width, height, nw, nh) && (!preserve_aspect || resize_fits_exec(
        nw,
        nh,
        width,
        height,
    ))
}

/// Decoded image → painted PNG bytes.
fn paint_decoded(width: u32, height: u32, bytes: Vec<u8>, pixel_size: u32, extended_palette: bool) -> (out: Vec<u8>)
    requires
        bytes@.len() == width * height * 4,
        width * height * 4 <= isize::MAX,
        pixel_size > 0,
        sizes_fit(width as nat, height as nat, pixel_size as nat, true),
    ensures
        out@ == png_or_empty(
            painted(
                Raster { width: width as nat, height: height as nat, data: bytes@ },
                web_config(pixel_size, extended_palette),
            ),
        ),
{
    let ghost model = Raster { width: width as nat, height: height as nat, data: bytes@ };
    let img = match RgbaImage::from_rgba_bytes(width, height, bytes) {
        Some(img) => img,
        None => return Vec::new(),
    };
    let config = PaintConfig::default().chunky(pixel_size).extended_palette(extended_palette);
    assert(config == web_config(pixel_size, extended_palette));
    let processed = paintify(&img, &config);
    let (pw, ph) = processed.dimensions();
    match encode_png(pw, ph, processed.as_raw()) {
        Some(png) => png,
        None => Vec::new(),
    }
}

/// Decodes an image file (PNG, JPEG, WebP), paints it with the given pixel
/// size and palette, and returns the result as PNG bytes; an empty vector when
/// the input cannot be decoded, the pixel size is zero, the image is too large
/// for the pipeline's buffers, or the result cannot be encoded.
pub fn paintify_js(input_data: &[u8], pixel_size: u32, extended_palette: bool) -> (out: Vec<u8>)
    ensures
        out@ == painted_png(input_data@, pixel_size, extended_palette),
{
    match decode_rgba(input_data) {
        Some((w, h, bytes)) => {
            if pixel_size == 0 || !sizes_fit_exec(w, h, pixel_size, true) {
                return Vec::new();
            }
            paint_decoded(w, h, bytes, pixel_size, extended_palette)
        },
        None => Vec::new(),
    }
}

/// `paintify_js` with pixel size 4 and the classic palette.
pub fn paintify_default_js(input_data: &[u8]) -> (out: Vec<u8>)
    ensures
        out@ == painted_png(input_data@, 4, false),
{
    match decode_rgba(input_data) {
        Some((w, h, bytes)) => {
            proof {
                lemma_large_factor_fits(w as nat, h as nat, 4);
            }
            paint_decoded(w, h, bytes, 4, false)
        },
        None => Vec::new(),
    }
}

} // verus!
