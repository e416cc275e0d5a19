//! Sobel edge detection and the black "pencil outline" overlay.
use vstd::prelude::*;
use crate::raster::{
    byte_index, flat_color, lemma_next_row, lemma_raster_from_chan, lemma_raster_from_ext,
    raster_from, Raster, RgbaImage,
};

verus! {

/// Gradient magnitudes above this value count as edges.
pub const EDGE_THRESHOLD: i32 = 80;

/// Luminance of pixel `(x, y)` (ITU-R BT.601 weights, rounded down).
pub open spec fn luma(img: Raster, x: int, y: int) -> int {
    (img.chan(x, y, 0) * 299 + img.chan(x, y, 1) * 587 + img.chan(x, y, 2) * 114) / 1000
}

/// Horizontal Sobel response at `(x, y)`.
pub open spec fn gradient_x(img: Raster, x: int, y: int) -> int {
    -luma(img, x - 1, y - 1) - 2 * luma(img, x - 1, y) - luma(img, x - 1, y + 1) + luma(
        img,
        x + 1,
        y - 1,
    ) + 2 * luma(img, x + 1, y) + luma(img, x + 1, y + 1)
}

/// Vertical Sobel response at `(x, y)`.
pub open spec fn gradient_y(img: Raster, x: int, y: int) -> int {
    -luma(img, x - 1, y - 1) - 2 * luma(img, x, y - 1) - luma(img, x + 1, y - 1) + luma(
        img,
        x - 1,
        y + 1,
    ) + 2 * luma(img, x, y + 1) + luma(img, x + 1, y + 1)
}

/// The gradient magnitude `sqrt(gx^2 + gy^2)`, rounded down, exceeds the
/// threshold: exactly when `gx^2 + gy^2 >= (threshold + 1)^2`.
pub open spec fn strong_edge(img: Raster, x: int, y: int) -> bool {
    let gx = gradient_x(img, x, y);
    let gy = gradient_y(img, x, y);
    (EDGE_THRESHOLD + 1) * (EDGE_THRESHOLD + 1) <= gx * gx + gy * gy
}

/// `(x, y)` has all eight neighbours inside the image.
pub open spec fn is_interior(img: Raster, x: int, y: int) -> bool {
    1 <= x < img.width - 1 && 1 <= y < img.height - 1
}

/// Channel `c` of the edge mask: interior pixels are opaque black on an edge
/// and opaque white elsewhere; the border stays transparent black.
pub open spec fn sobel_chan(img: Raster, x: int, y: int, c: int) -> u8 {
    if is_interior(img, x, y) {
        if c == 3 || !strong_edge(img, x, y) {
            255
        } else {
            0
        }
    } else {
        0
    }
}

/// The edge mask of an image.
pub open spec fn sobel(img: Raster) -> Raster {
    raster_from(img.width, img.height, |x: int, y: int, c: int| sobel_chan(img, x, y, c))
}

/// The mask is dark at `(x, y)`: the pixel exists and its red channel is below 128.
pub open spec fn dark_in_mask(edges: Raster, x: int, y: int) -> bool {
    edges.in_bounds(x, y) && edges.chan(x, y, 0) < 128
}

/// Channel `c` of `buf` after the overlay: opaque black where the mask is
/// dark, unchanged elsewhere.
pub open spec fn overlay_chan(buf: Raster, edges: Raster, x: int, y: int, c: int) -> u8 {
    if dark_in_mask(edges, x, y) {
        if c == 3 {
            255
        } else {
            0
        }
    } else {
        buf.chan(x, y, c)
    }
}

/// `buf` with the mask's dark pixels painted opaque black.
pub open spec fn overlaid(buf: Raster, edges: Raster) -> Raster {
    raster_from(buf.width, buf.height, |x: int, y: int, c: int| overlay_chan(buf, edges, x, y, c))
}

/// A flat image has no edges: its interior is opaque white.
pub proof fn lemma_flat_image_has_no_edges(img: Raster, col: [u8; 3])
    requires
        img.wf(),
        flat_color(img, col),
    ensures
        forall|x: int, y: int, c: int|
            is_interior(img, x, y) && 0 <= c < 4 ==> #[trigger] sobel(img).chan(x, y, c) == 255,
{
    assert forall|x: int, y: int, c: int|
        is_interior(img, x, y) && 0 <= c < 4 implies #[trigger] sobel(img).chan(x, y, c) == 255 by {
        let f = |x: int, y: int, c: int| sobel_chan(img, x, y, c);
        lemma_raster_from_chan(img.width, img.height, f, x, y, c);
        let l = luma(img, x, y);
        assert forall|dx: int, dy: int| -1 <= dx <= 1 && -1 <= dy <= 1 implies #[trigger] luma(
            img,
            x + dx,
            y + dy,
        ) == l by {
            assert(img.chan(x + dx, y + dy, 0) == col[0] && img.chan(x, y, 0) == col[0]);
            assert(img.chan(x + dx, y + dy, 1) == col[1] && img.chan(x, y, 1) == col[1]);
            assert(img.chan(x + dx, y + dy, 2) == col[2] && img.chan(x, y, 2) == col[2]);
        }
        assert(luma(img, x - 1, y - 1) == l && luma(img, x + 1, y + 1) == l);
        assert(luma(img, x - 1, y + 0) == l && luma(img, x + 1, y + 0) == l);
        assert(luma(img, x + 0, y - 1) == l && luma(img, x + 0, y + 1) == l);
        assert(luma(img, x - 1, y + 1) == l && luma(img, x + 1, y - 1) == l);
        assert(gradient_x(img, x, y) == 0);
        assert(gradient_y(img, x, y) == 0);
    }
}

/// A mask without dark pixels over the image leaves the image as it is.
pub proof fn lemma_overlay_without_dark_pixels(buf: Raster, edges: Raster)
    requires
        buf.wf(),
        forall|x: int, y: int| buf.in_bounds(x, y) ==> !#[trigger] dark_in_mask(edges, x, y),
    ensures
        overlaid(buf, edges) == buf,
{
    let f = |x: int, y: int, c: int| overlay_chan(buf, edges, x, y, c);
    assert forall|x: int, y: int, c: int|
        0 <= x < buf.width && 0 <= y < buf.height && 0 <= c < 4 implies #[trigger] buf.data[byte_index(
        buf.width,
        x,
        y,
        c,
    )] == f(x, y, c) by {
        assert(!dark_in_mask(edges, x, y));
    }
    lemma_raster_from_ext(buf.width, buf.height, f, buf.data);
    assert(overlaid(buf, edges) =~= buf);
}

/// The image mirrored along its main diagonal: pixel `(x, y)` of the result
/// is pixel `(y, x)` of `img`.
pub open spec fn transposed(img: Raster) -> Raster {
    raster_from(img.height, img.width, |x: int, y: int, c: int| img.chan(y, x, c))
}

/// Edge detection has no preferred direction: the edge mask of the transposed
/// image is the transposed edge mask of the image.
pub proof fn lemma_sobel_commutes_with_transpose(img: Raster)
    requires
        img.wf(),
    ensures
        sobel(transposed(img)) == transposed(sobel(img)),
{
    let t = transposed(img);
    let m = sobel(img);
    let ft = |x: int, y: int, c: int| img.chan(y, x, c);
    let fs = |x: int, y: int, c: int| sobel_chan(img, x, y, c);
    let g1 = |x: int, y: int, c: int| sobel_chan(t, x, y, c);
    let g2 = |x: int, y: int, c: int| m.chan(y, x, c);
    assert forall|a: int, b: int, k: int|
        0 <= a < img.height && 0 <= b < img.width && 0 <= k < 4 implies #[trigger] t.chan(a, b, k)
        == img.chan(b, a, k) by {
        lemma_raster_from_chan(img.height, img.width, ft, a, b, k);
    }
    assert forall|a: int, b: int|
        0 <= a < img.height && 0 <= b < img.width implies #[trigger] luma(t, a, b) == luma(
        img,
        b,
        a,
    ) by {
        assert(t.chan(a, b, 0) == img.chan(b, a, 0));
        assert(t.chan(a, b, 1) == img.chan(b, a, 1));
        assert(t.chan(a, b, 2) == img.chan(b, a, 2));
    }
    assert forall|x: int, y: int, c: int|
        0 <= x < img.height && 0 <= y < img.width && 0 <= c < 4 implies #[trigger] g1(x, y, c)
        == g2(x, y, c) by {
        lemma_raster_from_chan(img.width, img.height, fs, y, x, c);
        if is_interior(t, x, y) {
            assert(luma(t, x - 1, y - 1) == luma(img, y - 1, x - 1));
            assert(luma(t, x - 1, y) == luma(img, y, x - 1));
            assert(luma(t, x - 1, y + 1) == luma(img, y + 1, x - 1));
            assert(luma(t, x + 1, y - 1) == luma(img, y - 1, x + 1));
            assert(luma(t, x + 1, y) == luma(img, y, x + 1));
            assert(luma(t, x + 1, y + 1) == luma(img, y + 1, x + 1));
            assert(luma(t, x, y - 1) == luma(img, y - 1, x));
            assert(luma(t, x, y + 1) == luma(img, y + 1, x));
            assert(gradient_x(t, x, y) == gradient_y(img, y, x));
            assert(gradient_y(t, x, y) == gradient_x(img, y, x));
        }
    }
    assert forall|x: int, y: int, c: int|
        0 <= x < img.height && 0 <= y < img.width && 0 <= c < 4 implies #[trigger] sobel(t).data[byte_index(
        img.height,
        x,
        y,
        c,
    )] == g2(x, y, c) by {
        lemma_raster_from_chan(img.height, img.width, g1, x, y, c);
    }
    lemma_raster_from_ext(img.height, img.width, g2, sobel(t).data);
    assert(sobel(t) =~= transposed(m));
}

/// `m` squared.
pub open spec fn square(m: int) -> int {
    m * m
}

/// An interior pixel is an edge when the luminance gradient in either
/// direction alone exceeds the threshold, and never when both gradients stay
/// within 57 (as `2 * 57^2 < 81^2`). Exactly: it is an edge when the
/// gradient magnitude `sqrt(gx^2 + gy^2)` exceeds 80, i.e. some integer above
/// 80 has a square no larger than `gx^2 + gy^2`. Interior pixels are opaque,
/// and black or white.
pub proof fn lemma_sobel_edge_by_gradient(img: Raster, x: int, y: int)
    requires
        img.wf(),
        is_interior(img, x, y),
    ensures
        ({
            let gx = gradient_x(img, x, y);
            let gy = gradient_y(img, x, y);
            &&& (gx > EDGE_THRESHOLD || gx < -EDGE_THRESHOLD || gy > EDGE_THRESHOLD || gy
                < -EDGE_THRESHOLD) ==> sobel(img).chan(x, y, 0) == 0
            &&& (-57 <= gx <= 57 && -57 <= gy <= 57) ==> sobel(img).chan(x, y, 0) == 255
        }),
        sobel(img).chan(x, y, 3) == 255,
        (sobel(img).chan(x, y, 0) == 0) <==> exists|m: int|
            m > 80 && #[trigger] square(m) <= square(gradient_x(img, x, y)) + square(
                gradient_y(img, x, y),
            ),
        sobel(img).chan(x, y, 0) == 0 || sobel(img).chan(x, y, 0) == 255,
{
    let f = |x: int, y: int, c: int| sobel_chan(img, x, y, c);
    lemma_raster_from_chan(img.width, img.height, f, x, y, 0);
    lemma_raster_from_chan(img.width, img.height, f, x, y, 3);
    let gx = gradient_x(img, x, y);
    let gy = gradient_y(img, x, y);
    assert((gx > 80 || gx < -80) ==> gx * gx >= 6561) by (nonlinear_arith);
    assert((gy > 80 || gy < -80) ==> gy * gy >= 6561) by (nonlinear_arith);
    assert(gx * gx >= 0 && gy * gy >= 0) by (nonlinear_arith);
    assert((-57 <= gx <= 57 && -57 <= gy <= 57) ==> gx * gx + gy * gy <= 6498) by (nonlinear_arith);
    let g2 = square(gx) + square(gy);
    if sobel(img).chan(x, y, 0) == 0 {
        assert(square(81) <= g2);
    }
    if exists|m: int| m > 80 && #[trigger] square(m) <= g2 {
        let m = choose|m: int| m > 80 && #[trigger] square(m) <= g2;
        assert(m * m >= 6561) by (nonlinear_arith)
            requires
                m > 80,
        ;
    }
}

/// Pixel `(x, y)` of the overlay is opaque black exactly when the mask has a
/// pixel at the same place whose red channel is below 128; otherwise it is the
/// input's pixel. The size is the input's.
pub proof fn lemma_overlay_paints_dark_mask_pixels(buf: Raster, edges: Raster, x: int, y: int, c: int)
    requires
        buf.in_bounds(x, y),
        0 <= c < 4,
    ensures
        overlaid(buf, edges).width == buf.width,
        overlaid(buf, edges).height == buf.height,
        overlaid(buf, edges).chan(x, y, c) == if 0 <= x < edges.width && 0 <= y < edges.height
            && edges.data[(y * edges.width + x) * 4] < 128 {
            if c == 3 {
                255u8
            } else {
                0u8
            }
        } else {
            buf.chan(x, y, c)
        },
{
    let f = |x: int, y: int, c: int| overlay_chan(buf, edges, x, y, c);
    lemma_raster_from_chan(buf.width, buf.height, f, x, y, c);
}

/// Luminance of pixel `(x, y)`.
fn luma_at(img: &RgbaImage, x: u32, y: u32) -> (l: i32)
    requires
        img.wf(),
        img@.in_bounds(x as int, y as int),
    ensures
        l == luma(img@, x as int, y as int),
        0 <= l <= 255,
{
    let r = img.channel(x, y, 0) as i32;
    let g = img.channel(x, y, 1) as i32;
    let b = img.channel(x, y, 2) as i32;
    (r * 299 + g * 587 + b * 114) / 1000
}

/// The edge-mask pixel at an interior position.
fn sobel_pixel(img: &RgbaImage, x: u32, y: u32) -> (v: u8)
    requires
        img.wf(),
        is_interior(img@, x as int, y as int),
    ensures
        v == (if strong_edge(img@, x as int, y as int) {
            0u8
        } else {
            255u8
        }),
{
    let tl = luma_at(img, x - 1, y - 1);
    let tc = luma_at(img, x, y - 1);
    let tr = luma_at(img, x + 1, y - 1);
    let ml = luma_at(img, x - 1, y);
    let mr = luma_at(img, x + 1, y);
    let bl = luma_at(img, x - 1, y + 1);
    let bc = luma_at(img, x, y + 1);
    let br = luma_at(img, x + 1, y + 1);
    let gx = -tl - 2 * ml - bl + tr + 2 * mr + br;
    let gy = -tl - 2 * tc - tr + bl + 2 * bc + br;
    assert(gx * gx <= 1040400 && gy * gy <= 1040400) by (nonlinear_arith)
        requires
            -1020 <= gx <= 1020,
            -1020 <= gy <= 1020,
    ;
    assert(0 <= gx * gx && 0 <= gy * gy) by (nonlinear_arith);
    let g2 = gx * gx + gy * gy;
    if (EDGE_THRESHOLD + 1) * (EDGE_THRESHOLD + 1) <= g2 {
        0
    } else {
        255
    }
}

/// Detects edges with the Sobel operator on luminance. Interior pixels become
/// opaque black where the gradient magnitude exceeds the threshold and opaque
/// white elsewhere; the one-pixel border is left transparent black.
pub fn sobel_edges(buf: &RgbaImage) -> (edges: RgbaImage)
    requires
        buf.wf(),
    ensures
        edges.wf(),
        edges@ == sobel(buf@),
{
    let (w, h) = buf.dimensions();
    let ghost src = buf@;
    let ghost f = |x: int, y: int, c: int| sobel_chan(src, x, y, c);
    let mut out: Vec<u8> = Vec::new();
    let mut y: u32 = 0;
    while y < h
        invariant
            buf.wf(),
            buf@ == src,
            w == src.width,
            h == src.height,
            f == (|x: int, y: int, c: int| sobel_chan(src, x, y, c)),
            y <= h,
            out@.len() == y * w * 4,
            forall|k: int|
                0 <= k < out@.len() ==> out@[k] == raster_from(w as nat, h as nat, f).data[k],
        decreases h - y,
    {
        let mut x: u32 = 0;
        while x < w
            invariant
                buf.wf(),
                buf@ == src,
                w == src.width,
                h == src.height,
                f == (|x: int, y: int, c: int| sobel_chan(src, x, y, c)),
                y < h,
                x <= w,
                out@.len() == (y * w + x) * 4,
                forall|k: int|
                    0 <= k < out@.len() ==> out@[k] == raster_from(w as nat, h as nat, f).data[k],
            decreases w - x,
        {
            let p: [u8; 4] = if 1 <= x && x + 1 < w && 1 <= y && y + 1 < h {
                let v = sobel_pixel(buf, x, y);
                [v, v, v, 255]
            } else {
                [0, 0, 0, 0]
            };
            proof {
                lemma_raster_from_chan(w as nat, h as nat, f, x as int, y as int, 0);
                lemma_raster_from_chan(w as nat, h as nat, f, x as int, y as int, 1);
                lemma_raster_from_chan(w as nat, h as nat, f, x as int, y as int, 2);
                lemma_raster_from_chan(w as nat, h as nat, f, x as int, y as int, 3);
            }
            out.push(p[0]);
            out.push(p[1]);
            out.push(p[2]);
            out.push(p[3]);
            x += 1;
        }
        proof {
            lemma_next_row(w as nat, y as int);
        }
        y += 1;
    }
    assert((h as int) * (w as int) == (w as int) * (h as int)) by (nonlinear_arith);
    assert(out@ =~= raster_from(w as nat, h as nat, f).data);
    RgbaImage::from_parts(w, h, out)
}

/// Paints every pixel of `buf` opaque black where the edge mask has a pixel
/// whose red channel is below 128; other pixels are left as they are.
pub fn overlay_edges(buf: &mut RgbaImage, edges: &RgbaImage)
    requires
        old(buf).wf(),
        edges.wf(),
    ensures
        final(buf).wf(),
        final(buf)@ == overlaid(old(buf)@, edges@),
{
    let (w, h) = buf.dimensions();
    let ghost src = buf@;
    let ghost mask = edges@;
    let ghost f = |x: int, y: int, c: int| overlay_chan(src, mask, x, y, c);
    let mut out: Vec<u8> = Vec::new();
    let mut y: u32 = 0;
    while y < h
        invariant
            buf.wf(),
            edges.wf(),
            buf@ == src,
            edges@ == mask,
            w == src.width,
            h == src.height,
            f == (|x: int, y: int, c: int| overlay_chan(src, mask, x, y, c)),
            y <= h,
            out@.len() == y * w * 4,
            forall|k: int|
                0 <= k < out@.len() ==> out@[k] == raster_from(w as nat, h as nat, f).data[k],
        decreases h - y,
    {
        let mut x: u32 = 0;
        while x < w
            invariant
                buf.wf(),
                edges.wf(),
                buf@ == src,
                edges@ == mask,
                w == src.width,
                h == src.height,
                f == (|x: int, y: int, c: int| overlay_chan(src, mask, x, y, c)),
                y < h,
                x <= w,
                out@.len() == (y * w + x) * 4,
                forall|k: int|
                    0 <= k < out@.len() ==> out@[k] == raster_from(w as nat, h as nat, f).data[k],
            decreases w - x,
        {
            let dark = match edges.get_pixel_checked(x, y) {
                Some(e) => e.0[0] < 128,
                None => false,
            };
            let p = if dark {
                [0u8, 0u8, 0u8, 255u8]
            } else {
                buf.get_pixel(x, y).0
            };
            proof {
                lemma_raster_from_chan(w as nat, h as nat, f, x as int, y as int, 0);
                lemma_raster_from_chan(w as nat, h as nat, f, x as int, y as int, 1);
                lemma_raster_from_chan(w as nat, h as nat, f, x as int, y as int, 2);
                lemma_raster_from_chan(w as nat, h as nat, f, x as int, y as int, 3);
            }
            out.push(p[0]);
            out.push(p[1]);
            out.push(p[2]);
            out.push(p[3]);
            x += 1;
        }
        proof {
            lemma_next_row(w as nat, y as int);
        }
        y += 1;
    }
    assert((h as int) * (w as int) == (w as int) * (h as int)) by (nonlinear_arith);
    assert(out@ =~= raster_from(w as nat, h as nat, f).data);
    *buf = RgbaImage::from_parts(w, h, out);
}

} // verus!
