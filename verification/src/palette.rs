//! The MS Paint palettes and nearest-colour quantization.
use vstd::prelude::*;
use crate::raster::{
    byte_index, lemma_byte_index_bounds, lemma_next_row, lemma_raster_from_chan, lemma_raster_from_ext, raster_from,
    Raster, Rgba, RgbaImage,
};

verus! {

/// The classic 16-colour MS Paint palette.
pub const MS_PAINT_PALETTE: [[u8; 3]; 16] = [
    [0, 0, 0],
    [255, 255, 255],
    [128, 128, 128],
    [192, 192, 192],
    [128, 0, 0],
    [255, 0, 0],
    [128, 128, 0],
    [255, 255, 0],
    [0, 128, 0],
    [0, 255, 0],
    [0, 128, 128],
    [0, 255, 255],
    [0, 0, 128],
    [0, 0, 255],
    [128, 0, 128],
    [255, 0, 255],
];

/// The 28-colour extended MS Paint palette: the classic colours followed by
/// twelve more.
pub const MS_PAINT_EXTENDED: [[u8; 3]; 28] = [
    [0, 0, 0],
    [255, 255, 255],
    [128, 128, 128],
    [192, 192, 192],
    [128, 0, 0],
    [255, 0, 0],
    [128, 128, 0],
    [255, 255, 0],
    [0, 128, 0],
    [0, 255, 0],
    [0, 128, 128],
    [0, 255, 255],
    [0, 0, 128],
    [0, 0, 255],
    [128, 0, 128],
    [255, 0, 255],
    [128, 64, 0],
    [255, 128, 64],
    [0, 64, 0],
    [128, 255, 128],
    [0, 64, 128],
    [128, 128, 255],
    [128, 0, 64],
    [255, 128, 192],
    [64, 64, 64],
    [255, 128, 128],
    [255, 255, 128],
    [128, 255, 255],
];

/// Squared Euclidean distance in RGB space between `(r, g, b)` and `col`.
pub open spec fn color_dist(r: int, g: int, b: int, col: [u8; 3]) -> int {
    (r - col[0]) * (r - col[0]) + (g - col[1]) * (g - col[1]) + (b - col[2]) * (b - col[2])
}

/// `k` is the first palette index whose colour is nearest to `(r, g, b)`.
pub open spec fn is_first_nearest(r: int, g: int, b: int, pal: Seq<[u8; 3]>, k: int) -> bool {
    &&& 0 <= k < pal.len()
    &&& forall|j: int|
        0 <= j < pal.len() ==> color_dist(r, g, b, pal[k]) <= #[trigger] color_dist(
            r,
            g,
            b,
            pal[j],
        )
    &&& forall|j: int|
        0 <= j < k ==> color_dist(r, g, b, pal[k]) < #[trigger] color_dist(r, g, b, pal[j])
}

/// The first palette index nearest to `(r, g, b)`.
pub open spec fn nearest_index(r: int, g: int, b: int, pal: Seq<[u8; 3]>) -> int {
    choose|k: int| is_first_nearest(r, g, b, pal, k)
}

/// There is exactly one first-nearest index in a non-empty palette.
pub proof fn lemma_nearest_index(r: int, g: int, b: int, pal: Seq<[u8; 3]>)
    requires
        pal.len() > 0,
    ensures
        is_first_nearest(r, g, b, pal, nearest_index(r, g, b, pal)),
        forall|k: int| is_first_nearest(r, g, b, pal, k) ==> k == nearest_index(r, g, b, pal),
    decreases pal.len(),
{
    if pal.len() == 1 {
        assert(is_first_nearest(r, g, b, pal, 0));
    } else {
        let prefix = pal.drop_last();
        lemma_nearest_index(r, g, b, prefix);
        let k0 = nearest_index(r, g, b, prefix);
        let last = pal.len() - 1;
        if color_dist(r, g, b, pal[last]) < color_dist(r, g, b, pal[k0]) {
            assert(is_first_nearest(r, g, b, pal, last)) by {
                assert forall|j: int| 0 <= j < last implies color_dist(r, g, b, pal[last])
                    < #[trigger] color_dist(r, g, b, pal[j]) by {
                    assert(prefix[j] == pal[j]);
                }
            }
        } else {
            assert(is_first_nearest(r, g, b, pal, k0)) by {
                assert forall|j: int| 0 <= j < pal.len() implies color_dist(r, g, b, pal[k0])
                    <= #[trigger] color_dist(r, g, b, pal[j]) by {
                    if j < last {
                        assert(prefix[j] == pal[j]);
                    }
                }
                assert forall|j: int| 0 <= j < k0 implies color_dist(r, g, b, pal[k0])
                    < #[trigger] color_dist(r, g, b, pal[j]) by {
                    assert(prefix[j] == pal[j]);
                }
            }
        }
    }
    lemma_first_nearest_unique(r, g, b, pal);
}

/// Two first-nearest indices are the same index.
proof fn lemma_first_nearest_unique(r: int, g: int, b: int, pal: Seq<[u8; 3]>)
    ensures
        forall|k1: int, k2: int|
            is_first_nearest(r, g, b, pal, k1) && is_first_nearest(r, g, b, pal, k2) ==> k1
                == k2,
{
    assert forall|k1: int, k2: int|
        is_first_nearest(r, g, b, pal, k1) && is_first_nearest(r, g, b, pal, k2) implies k1
        == k2 by {
        if k1 < k2 {
            assert(color_dist(r, g, b, pal[k2]) < color_dist(r, g, b, pal[k1]));
            assert(color_dist(r, g, b, pal[k1]) <= color_dist(r, g, b, pal[k2]));
        } else if k2 < k1 {
            assert(color_dist(r, g, b, pal[k1]) < color_dist(r, g, b, pal[k2]));
            assert(color_dist(r, g, b, pal[k2]) <= color_dist(r, g, b, pal[k1]));
        }
    }
}

/// The palette colour that `closest_color` gives for channels `(r, g, b)`.
pub open spec fn nearest_color(r: int, g: int, b: int, pal: Seq<[u8; 3]>) -> [u8; 3] {
    pal[nearest_index(r, g, b, pal)]
}

/// Channel `c` of `px` after it has been mapped to the palette: the nearest
/// colour's channel, or the pixel's own alpha.
pub open spec fn quantized_chan(px: Raster, x: int, y: int, c: int, pal: Seq<[u8; 3]>) -> u8 {
    if c == 3 {
        px.chan(x, y, 3)
    } else {
        nearest_color(
            px.chan(x, y, 0) as int,
            px.chan(x, y, 1) as int,
            px.chan(x, y, 2) as int,
            pal,
        )[c]
    }
}

/// The image with every pixel mapped to its nearest palette colour.
pub open spec fn quantized(img: Raster, pal: Seq<[u8; 3]>) -> Raster {
    raster_from(img.width, img.height, |x: int, y: int, c: int| quantized_chan(img, x, y, c, pal))
}

/// A palette colour is mapped to itself: its nearest palette colour has the
/// same channels.
pub proof fn lemma_palette_color_maps_to_itself(pal: Seq<[u8; 3]>, k: int)
    requires
        0 <= k < pal.len(),
    ensures
        forall|c: int|
            0 <= c < 3 ==> #[trigger] nearest_color(
                pal[k][0] as int,
                pal[k][1] as int,
                pal[k][2] as int,
                pal,
            )[c] == pal[k][c],
{
    let r = pal[k][0] as int;
    let g = pal[k][1] as int;
    let b = pal[k][2] as int;
    lemma_nearest_index(r, g, b, pal);
    let n = nearest_index(r, g, b, pal);
    assert(color_dist(r, g, b, pal[k]) == 0);
    let dr = r - pal[n][0];
    let dg = g - pal[n][1];
    let db = b - pal[n][2];
    assert(dr == 0 && dg == 0 && db == 0) by (nonlinear_arith)
        requires
            dr * dr + dg * dg + db * db <= 0,
    ;
}

/// Quantizing twice is quantizing once: a quantized image only holds palette
/// colours, and they are mapped to themselves.
pub proof fn lemma_quantize_idempotent(img: Raster, pal: Seq<[u8; 3]>)
    requires
        pal.len() > 0,
    ensures
        quantized(quantized(img, pal), pal) == quantized(img, pal),
{
    let q = quantized(img, pal);
    let fq = |x: int, y: int, c: int| quantized_chan(img, x, y, c, pal);
    let fqq = |x: int, y: int, c: int| quantized_chan(q, x, y, c, pal);
    assert forall|x: int, y: int, c: int|
        0 <= x < img.width && 0 <= y < img.height && 0 <= c < 4 implies #[trigger] quantized(
        q,
        pal,
    ).data[byte_index(img.width, x, y, c)] == fq(x, y, c) by {
        lemma_raster_from_chan(img.width, img.height, fqq, x, y, c);
        lemma_raster_from_chan(img.width, img.height, fq, x, y, 0);
        lemma_raster_from_chan(img.width, img.height, fq, x, y, 1);
        lemma_raster_from_chan(img.width, img.height, fq, x, y, 2);
        lemma_raster_from_chan(img.width, img.height, fq, x, y, 3);
        let r = img.chan(x, y, 0) as int;
        let g = img.chan(x, y, 1) as int;
        let b = img.chan(x, y, 2) as int;
        lemma_nearest_index(r, g, b, pal);
        let k = nearest_index(r, g, b, pal);
        lemma_palette_color_maps_to_itself(pal, k);
        if c < 3 {
            assert(nearest_color(pal[k][0] as int, pal[k][1] as int, pal[k][2] as int, pal)[c]
                == pal[k][c]);
        }
    }
    lemma_raster_from_ext(img.width, img.height, fq, quantized(q, pal).data);
}

/// Pixel `(x, y)` has the colour of some palette entry.
pub open spec fn has_palette_color(img: Raster, x: int, y: int, pal: Seq<[u8; 3]>) -> bool {
    exists|k: int|
        0 <= k < pal.len() && img.chan(x, y, 0) == #[trigger] pal[k][0] && img.chan(x, y, 1)
            == pal[k][1] && img.chan(x, y, 2) == pal[k][2]
}

/// Every pixel of the image has a palette colour.
pub open spec fn only_palette_colors(img: Raster, pal: Seq<[u8; 3]>) -> bool {
    forall|x: int, y: int| #[trigger] img.in_bounds(x, y) ==> has_palette_color(img, x, y, pal)
}

/// Quantization leaves only palette colours.
pub proof fn lemma_quantized_only_palette(img: Raster, pal: Seq<[u8; 3]>)
    requires
        pal.len() > 0,
    ensures
        only_palette_colors(quantized(img, pal), pal),
{
    let q = quantized(img, pal);
    assert forall|x: int, y: int| #[trigger] q.in_bounds(x, y) implies has_palette_color(
        q,
        x,
        y,
        pal,
    ) by {
        let f = |x: int, y: int, c: int| quantized_chan(img, x, y, c, pal);
        lemma_raster_from_chan(img.width, img.height, f, x, y, 0);
        lemma_raster_from_chan(img.width, img.height, f, x, y, 1);
        lemma_raster_from_chan(img.width, img.height, f, x, y, 2);
        let r = img.chan(x, y, 0) as int;
        let g = img.chan(x, y, 1) as int;
        let b = img.chan(x, y, 2) as int;
        lemma_nearest_index(r, g, b, pal);
        let k = nearest_index(r, g, b, pal);
        assert(q.chan(x, y, 0) == pal[k][0]);
    }
}

/// An image drawn only in palette colours is left as it is by quantization.
pub proof fn lemma_quantize_keeps_palette_images(img: Raster, pal: Seq<[u8; 3]>)
    requires
        img.wf(),
        pal.len() > 0,
        only_palette_colors(img, pal),
    ensures
        quantized(img, pal) == img,
{
    let f = |x: int, y: int, c: int| quantized_chan(img, x, y, c, pal);
    assert forall|x: int, y: int, c: int|
        0 <= x < img.width && 0 <= y < img.height && 0 <= c < 4 implies #[trigger] img.data[byte_index(
        img.width,
        x,
        y,
        c,
    )] == f(x, y, c) by {
        if c < 3 {
            assert(img.in_bounds(x, y));
            assert(has_palette_color(img, x, y, pal));
            let k = choose|k: int|
                0 <= k < pal.len() && img.chan(x, y, 0) == #[trigger] pal[k][0] && img.chan(x, y, 1)
                    == pal[k][1] && img.chan(x, y, 2) == pal[k][2];
            lemma_palette_color_maps_to_itself(pal, k);
            assert(img.chan(x, y, c) == pal[k][c]);
        }
    }
    lemma_raster_from_ext(img.width, img.height, f, img.data);
    assert(quantized(img, pal) =~= img);
}

/// Squared distance between the pixel's colour and `col`, computed in `i32`.
fn distance_sq(pixel: &Rgba, col: &[u8; 3]) -> (d: u32)
    ensures
        d == color_dist(pixel.0[0] as int, pixel.0[1] as int, pixel.0[2] as int, *col),
{
    let dr = pixel.0[0] as i32 - col[0] as i32;
    let dg = pixel.0[1] as i32 - col[1] as i32;
    let db = pixel.0[2] as i32 - col[2] as i32;
    assert(dr * dr <= 65025 && dg * dg <= 65025 && db * db <= 65025) by (nonlinear_arith)
        requires
            -255 <= dr <= 255,
            -255 <= dg <= 255,
            -255 <= db <= 255,
    ;
    assert(0 <= dr * dr && 0 <= dg * dg && 0 <= db * db) by (nonlinear_arith);
    (dr * dr + dg * dg + db * db) as u32
}

/// The palette colour nearest to `pixel` (the first one on a tie), with the
/// pixel's alpha kept.
pub fn closest_color(pixel: &Rgba, palette: &[[u8; 3]]) -> (res: Rgba)
    requires
        palette@.len() > 0,
    ensures
        ({
            let k = nearest_index(
                pixel.0[0] as int,
                pixel.0[1] as int,
                pixel.0[2] as int,
                palette@,
            );
            &&& is_first_nearest(
                pixel.0[0] as int,
                pixel.0[1] as int,
                pixel.0[2] as int,
                palette@,
                k,
            )
            &&& res.0[0] == palette@[k][0]
            &&& res.0[1] == palette@[k][1]
            &&& res.0[2] == palette@[k][2]
            &&& res.0[3] == pixel.0[3]
        }),
{
    let ghost r = pixel.0[0] as int;
    let ghost g = pixel.0[1] as int;
    let ghost b = pixel.0[2] as int;
    let mut min_dist: u32 = u32::MAX;
    let mut best: usize = 0;
    let mut i: usize = 0;
    while i < palette.len()
        invariant
            0 <= i <= palette@.len(),
            palette@.len() > 0,
            r == pixel.0[0],
            g == pixel.0[1],
            b == pixel.0[2],
            i == 0 ==> best == 0 && min_dist == u32::MAX,
            i > 0 ==> best < i && min_dist == color_dist(r, g, b, palette@[best as int]),
            forall|j: int|
                0 <= j < i ==> min_dist <= #[trigger] color_dist(r, g, b, palette@[j]),
            forall|j: int|
                0 <= j < best ==> min_dist < #[trigger] color_dist(r, g, b, palette@[j]),
        decreases palette@.len() - i,
    {
        let d = distance_sq(pixel, &palette[i]);
        assert(d <= 3 * 65025) by (nonlinear_arith)
            requires
                d == color_dist(r, g, b, palette@[i as int]),
                0 <= r <= 255,
                0 <= g <= 255,
                0 <= b <= 255,
                0 <= palette@[i as int][0] <= 255,
                0 <= palette@[i as int][1] <= 255,
                0 <= palette@[i as int][2] <= 255,
        ;
        if d < min_dist {
            min_dist = d;
            best = i;
        }
        i += 1;
    }
    proof {
        assert(is_first_nearest(r, g, b, palette@, best as int));
        lemma_nearest_index(r, g, b, palette@);
    }
    let col = palette[best];
    Rgba([col[0], col[1], col[2], pixel.0[3]])
}

/// Maps every pixel of `buf` to its nearest palette colour, keeping alpha.
pub fn quantize_colors(buf: &mut RgbaImage, palette: &[[u8; 3]])
    requires
        old(buf).wf(),
        old(buf)@.data.len() > 0 ==> palette@.len() > 0,
    ensures
        final(buf).wf(),
        final(buf)@ == quantized(old(buf)@, palette@),
        only_palette_colors(final(buf)@, palette@),
{
    let (w, h) = buf.dimensions();
    let ghost src = buf@;
    let ghost f = |x: int, y: int, c: int| quantized_chan(src, x, y, c, palette@);
    let mut out: Vec<u8> = Vec::new();
    let mut y: u32 = 0;
    while y < h
        invariant
            buf.wf(),
            buf@ == src,
            w == src.width,
            h == src.height,
            src.data.len() > 0 ==> palette@.len() > 0,
            f == (|x: int, y: int, c: int| quantized_chan(src, x, y, c, palette@)),
            y <= h,
            out@.len() == y * w * 4,
            forall|k: int| 0 <= k < out@.len() ==> out@[k] == raster_from(w as nat, h as nat, f).data[k],
        decreases h - y,
    {
        let mut x: u32 = 0;
        while x < w
            invariant
                buf.wf(),
                buf@ == src,
                w == src.width,
                h == src.height,
                src.data.len() > 0 ==> palette@.len() > 0,
                f == (|x: int, y: int, c: int| quantized_chan(src, x, y, c, palette@)),
                y < h,
                x <= w,
                out@.len() == (y * w + x) * 4,
                forall|k: int| 0 <= k < out@.len() ==> out@[k] == raster_from(w as nat, h as nat, f).data[k],
            decreases w - x,
        {
            proof {
                lemma_byte_index_bounds(w as nat, h as nat, x as int, y as int, 0);
            }
            let q = closest_color(&buf.get_pixel(x, y), palette);
            proof {
                lemma_raster_from_chan(w as nat, h as nat, f, x as int, y as int, 0);
                lemma_raster_from_chan(w as nat, h as nat, f, x as int, y as int, 1);
                lemma_raster_from_chan(w as nat, h as nat, f, x as int, y as int, 2);
                lemma_raster_from_chan(w as nat, h as nat, f, x as int, y as int, 3);
            }
            out.push(q.0[0]);
            out.push(q.0[1]);
            out.push(q.0[2]);
            out.push(q.0[3]);
            x += 1;
        }
        proof {
            lemma_next_row(w as nat, y as int);
        }
        y += 1;
    }
    assert((h as int) * (w as int) == (w as int) * (h as int)) by (nonlinear_arith);
    assert(out@ =~= raster_from(w as nat, h as nat, f).data);
    *buf = RgbaImage::from_parts(w, h, out);
    proof {
        if palette@.len() > 0 {
            lemma_quantized_only_palette(src, palette@);
        } else {
            assert forall|x: int, y: int| #[trigger] buf@.in_bounds(x, y) implies has_palette_color(
                buf@,
                x,
                y,
                palette@,
            ) by {
                lemma_byte_index_bounds(w as nat, h as nat, x, y, 0);
            }
        }
    }
}

} // verus!
