//! The Kuwahara filter: every pixel takes the mean colour of the least varied
//! of the four quadrants of its neighbourhood, which flattens textures into
//! solid "brush stroke" blobs while keeping hard edges.
use vstd::prelude::*;
use crate::raster::{
    byte_index, flat_color, lemma_next_row, lemma_raster_from_chan, lemma_raster_from_ext,
    raster_from, Raster, RgbaImage,
};

verus! {

/// A value, or its square.
pub open spec fn moment(v: u8, squares: bool) -> int {
    if squares {
        v * v
    } else {
        v as int
    }
}

/// Sum of channel `c` (or of its square) over columns `xa..xb` of row `y`.
pub open spec fn row_sum(img: Raster, c: int, y: int, xa: int, xb: int, squares: bool) -> int
    decreases xb - xa,
{
    if xb <= xa {
        0
    } else {
        row_sum(img, c, y, xa, xb - 1, squares) + moment(img.chan(xb - 1, y, c), squares)
    }
}

/// Sum of channel `c` (or of its square) over columns `xa..xb` and rows `ya..yb`.
pub open spec fn rect_sum(
    img: Raster,
    c: int,
    xa: int,
    xb: int,
    ya: int,
    yb: int,
    squares: bool,
) -> int
    decreases yb - ya,
{
    if yb <= ya {
        0
    } else {
        rect_sum(img, c, xa, xb, ya, yb - 1, squares) + row_sum(img, c, yb - 1, xa, xb, squares)
    }
}

/// A quadrant of a pixel's neighbourhood: columns `x0..=x1`, rows `y0..=y1`.
pub struct Quadrant {
    pub x0: int,
    pub y0: int,
    pub x1: int,
    pub y1: int,
}

/// Number of pixels in the quadrant.
pub open spec fn q_count(q: Quadrant) -> int {
    (q.x1 - q.x0 + 1) * (q.y1 - q.y0 + 1)
}

/// Sum of channel `c` over the quadrant.
pub open spec fn q_sum(img: Raster, q: Quadrant, c: int) -> int {
    rect_sum(img, c, q.x0, q.x1 + 1, q.y0, q.y1 + 1, false)
}

/// Sum of the squares of channel `c` over the quadrant.
pub open spec fn q_sum_sq(img: Raster, q: Quadrant, c: int) -> int {
    rect_sum(img, c, q.x0, q.x1 + 1, q.y0, q.y1 + 1, true)
}

/// `n * sum(v^2) - sum(v)^2` for channel `c`: `n^2` times the channel's variance.
pub open spec fn q_channel_spread(img: Raster, q: Quadrant, c: int) -> int {
    q_count(q) * q_sum_sq(img, q, c) - q_sum(img, q, c) * q_sum(img, q, c)
}

/// `n^2` times the quadrant's colour variance (summed over red, green and blue).
pub open spec fn q_spread(img: Raster, q: Quadrant) -> int {
    q_channel_spread(img, q, 0) + q_channel_spread(img, q, 1) + q_channel_spread(img, q, 2)
}

/// Quadrant `a` has a strictly lower colour variance than `b`
/// (`spread_a / n_a^2 < spread_b / n_b^2`, compared exactly).
pub open spec fn lower_variance(img: Raster, a: Quadrant, b: Quadrant) -> bool {
    q_spread(img, a) * (q_count(b) * q_count(b)) < q_spread(img, b) * (q_count(a) * q_count(a))
}

/// Scanning the quadrants in order: quadrants of fewer than two pixels are
/// skipped, and a quadrant replaces the current choice only when its variance
/// is strictly lower.
pub open spec fn consider(img: Raster, best: Option<Quadrant>, q: Quadrant) -> Option<Quadrant> {
    if q_count(q) < 2 {
        best
    } else {
        match best {
            None => Some(q),
            Some(b) => if lower_variance(img, q, b) {
                Some(q)
            } else {
                best
            },
        }
    }
}

/// The neighbourhood of `(x, y)` within radius `r`, clipped to the image:
/// `(x0, y0, x1, y1)`.
pub open spec fn window(img: Raster, r: int, x: int, y: int) -> (int, int, int, int) {
    (
        if x - r > 0 { x - r } else { 0 },
        if y - r > 0 { y - r } else { 0 },
        if x + r < img.width - 1 { x + r } else { img.width - 1 },
        if y + r < img.height - 1 { y + r } else { img.height - 1 },
    )
}

/// The quadrant chosen for pixel `(x, y)`, scanning top-left, top-right,
/// bottom-left, bottom-right; `None` when every quadrant is a single pixel.
pub open spec fn chosen_quadrant(img: Raster, r: int, x: int, y: int) -> Option<Quadrant> {
    let (x0, y0, x1, y1) = window(img, r, x, y);
    let tl = Quadrant { x0: x0, y0: y0, x1: x, y1: y };
    let tr = Quadrant { x0: x, y0: y0, x1: x1, y1: y };
    let bl = Quadrant { x0: x0, y0: y, x1: x, y1: y1 };
    let br = Quadrant { x0: x, y0: y, x1: x1, y1: y1 };
    consider(img, consider(img, consider(img, consider(img, None, tl), tr), bl), br)
}

/// Channel `c` of the filtered pixel `(x, y)`: the chosen quadrant's mean
/// (rounded down), and the pixel's own alpha. Where every quadrant is the
/// pixel alone, that one-pixel quadrant's mean is the pixel itself, which is
/// kept.
pub open spec fn kuwahara_chan(img: Raster, r: int, x: int, y: int, c: int) -> u8 {
    if c == 3 {
        img.chan(x, y, 3)
    } else {
        match chosen_quadrant(img, r, x, y) {
            Some(q) => (q_sum(img, q, c) / q_count(q)) as u8,
            None => img.chan(x, y, c),
        }
    }
}

/// The Kuwahara-filtered image.
pub open spec fn kuwahara(img: Raster, r: int) -> Raster {
    raster_from(img.width, img.height, |x: int, y: int, c: int| kuwahara_chan(img, r, x, y, c))
}

/// The four quadrants of pixel `(x, y)` in scan order: top-left, top-right,
/// bottom-left, bottom-right.
pub open spec fn quadrants(img: Raster, r: int, x: int, y: int) -> Seq<Quadrant> {
    let (x0, y0, x1, y1) = window(img, r, x, y);
    seq![
        Quadrant { x0: x0, y0: y0, x1: x, y1: y },
        Quadrant { x0: x, y0: y0, x1: x1, y1: y },
        Quadrant { x0: x0, y0: y, x1: x, y1: y1 },
        Quadrant { x0: x, y0: y, x1: x1, y1: y1 },
    ]
}

/// Exact comparison of two fractions `va / na^2` with positive `na`: strict
/// then non-strict, and non-strict then strict, give strict.
proof fn lemma_fraction_order(va: int, na: int, vb: int, nb: int, vc: int, nc: int)
    requires
        na > 0,
        nb > 0,
        nc > 0,
    ensures
        va * (nb * nb) < vb * (na * na) && vb * (nc * nc) <= vc * (nb * nb) ==> va * (nc * nc)
            < vc * (na * na),
        va * (nb * nb) <= vb * (na * na) && vb * (nc * nc) < vc * (nb * nb) ==> va * (nc * nc)
            < vc * (na * na),
{
    let a = na * na;
    let b = nb * nb;
    let c = nc * nc;
    assert(a > 0 && b > 0 && c > 0) by (nonlinear_arith)
        requires
            na > 0,
            nb > 0,
            nc > 0,
            a == na * na,
            b == nb * nb,
            c == nc * nc,
    ;
    if va * b < vb * a && vb * c <= vc * b {
        assert((va * c) * b < (vc * a) * b) by (nonlinear_arith)
            requires
                va * b < vb * a,
                vb * c <= vc * b,
                a > 0,
                b > 0,
                c > 0,
        ;
        assert(va * c < vc * a) by (nonlinear_arith)
            requires
                (va * c) * b < (vc * a) * b,
                b > 0,
        ;
    }
    if va * b <= vb * a && vb * c < vc * b {
        assert((va * c) * b < (vc * a) * b) by (nonlinear_arith)
            requires
                va * b <= vb * a,
                vb * c < vc * b,
                a > 0,
                b > 0,
                c > 0,
        ;
        assert(va * c < vc * a) by (nonlinear_arith)
            requires
                (va * c) * b < (vc * a) * b,
                b > 0,
        ;
    }
}

/// What the scan has established after looking at `seen`: it holds a choice
/// exactly when some seen quadrant has two pixels or more, and no such quadrant
/// has a strictly lower variance than the choice.
pub open spec fn scan_state_ok(img: Raster, best: Option<Quadrant>, seen: Seq<Quadrant>) -> bool {
    &&& best is None <==> forall|i: int| 0 <= i < seen.len() ==> q_count(#[trigger] seen[i]) < 2
    &&& best matches Some(b) ==> {
        &&& q_count(b) >= 2
        &&& exists|i: int| 0 <= i < seen.len() && #[trigger] seen[i] == b
        &&& forall|i: int|
            0 <= i < seen.len() && q_count(#[trigger] seen[i]) >= 2 ==> !lower_variance(
                img,
                seen[i],
                b,
            )
    }
}

/// One step of the scan keeps `scan_state_ok`.
proof fn lemma_consider_step(img: Raster, best: Option<Quadrant>, seen: Seq<Quadrant>, q: Quadrant)
    requires
        scan_state_ok(img, best, seen),
        forall|i: int| 0 <= i < seen.len() ==> q_count(#[trigger] seen[i]) > 0,
        q_count(q) > 0,
    ensures
        scan_state_ok(img, consider(img, best, q), seen.push(q)),
{
    let next = consider(img, best, q);
    let s2 = seen.push(q);
    assert(s2[seen.len() as int] == q);
    assert(forall|i: int| 0 <= i < seen.len() ==> #[trigger] s2[i] == seen[i]);
    if q_count(q) >= 2 {
        match best {
            None => {
                assert(s2[seen.len() as int] == q);
            },
            Some(b) => {
                if lower_variance(img, q, b) {
                    assert forall|i: int|
                        0 <= i < s2.len() && q_count(#[trigger] s2[i]) >= 2 implies !lower_variance(
                        img,
                        s2[i],
                        q,
                    ) by {
                        if i < seen.len() {
                            let p = s2[i];
                            assert(!lower_variance(img, seen[i], b));
                            lemma_fraction_order(
                                q_spread(img, p),
                                q_count(p),
                                q_spread(img, q),
                                q_count(q),
                                q_spread(img, b),
                                q_count(b),
                            );
                        }
                    }
                } else {
                    let j = choose|i: int| 0 <= i < seen.len() && #[trigger] seen[i] == b;
                    assert(s2[j] == b);
                }
            },
        }
    } else {
        if let Some(b) = best {
            let j = choose|i: int| 0 <= i < seen.len() && #[trigger] seen[i] == b;
            assert(s2[j] == b);
        }
    }
}

/// The Kuwahara filter picks the least varied quadrant: a quadrant is chosen
/// exactly when one of the four has at least two pixels, the chosen one is
/// such a quadrant, and no quadrant of at least two pixels has a strictly
/// lower colour variance.
pub proof fn lemma_kuwahara_picks_least_variance(img: Raster, r: int, x: int, y: int)
    requires
        img.in_bounds(x, y),
        r >= 0,
    ensures
        scan_state_ok(img, chosen_quadrant(img, r, x, y), quadrants(img, r, x, y)),
{
    let qs = quadrants(img, r, x, y);
    let (x0, y0, x1, y1) = window(img, r, x, y);
    assert forall|i: int| 0 <= i < 4 implies q_count(#[trigger] qs[i]) > 0 by {
        let q = qs[i];
        assert(q.x0 <= q.x1 && q.y0 <= q.y1);
        assert((q.x1 - q.x0 + 1) * (q.y1 - q.y0 + 1) > 0) by (nonlinear_arith)
            requires
                q.x0 <= q.x1,
                q.y0 <= q.y1,
        ;
    }
    let s0 = Seq::<Quadrant>::empty();
    let s1 = s0.push(qs[0]);
    let s2 = s1.push(qs[1]);
    let s3 = s2.push(qs[2]);
    let s4 = s3.push(qs[3]);
    let b1 = consider(img, None, qs[0]);
    let b2 = consider(img, b1, qs[1]);
    let b3 = consider(img, b2, qs[2]);
    assert(scan_state_ok(img, None, s0));
    lemma_consider_step(img, None, s0, qs[0]);
    assert(forall|i: int| 0 <= i < s1.len() ==> #[trigger] s1[i] == qs[i]);
    lemma_consider_step(img, b1, s1, qs[1]);
    assert(forall|i: int| 0 <= i < s2.len() ==> #[trigger] s2[i] == qs[i]);
    lemma_consider_step(img, b2, s2, qs[2]);
    assert(forall|i: int| 0 <= i < s3.len() ==> #[trigger] s3[i] == qs[i]);
    lemma_consider_step(img, b3, s3, qs[3]);
    assert(s4 =~= qs);
}

/// Over a flat image a row sums to its length times the colour.
proof fn lemma_flat_row_sum(img: Raster, col: [u8; 3], c: int, y: int, xa: int, xb: int)
    requires
        flat_color(img, col),
        0 <= c < 3,
        0 <= y < img.height,
        0 <= xa <= xb <= img.width,
    ensures
        row_sum(img, c, y, xa, xb, false) == (xb - xa) * col[c],
    decreases xb - xa,
{
    if xb > xa {
        lemma_flat_row_sum(img, col, c, y, xa, xb - 1);
        assert(img.chan(xb - 1, y, c) == col[c]);
        assert((xb - 1 - xa) * col[c] + col[c] == (xb - xa) * col[c]) by (nonlinear_arith);
    } else {
        assert((xb - xa) * col[c] == 0) by (nonlinear_arith)
            requires
                xb == xa,
        ;
    }
}

/// Over a flat image a rectangle sums to its area times the colour.
proof fn lemma_flat_rect_sum(
    img: Raster,
    col: [u8; 3],
    c: int,
    xa: int,
    xb: int,
    ya: int,
    yb: int,
)
    requires
        flat_color(img, col),
        0 <= c < 3,
        0 <= xa <= xb <= img.width,
        0 <= ya <= yb <= img.height,
    ensures
        rect_sum(img, c, xa, xb, ya, yb, false) == (xb - xa) * (yb - ya) * col[c],
    decreases yb - ya,
{
    if yb > ya {
        lemma_flat_rect_sum(img, col, c, xa, xb, ya, yb - 1);
        lemma_flat_row_sum(img, col, c, yb - 1, xa, xb);
        assert((xb - xa) * (yb - 1 - ya) * col[c] + (xb - xa) * col[c] == (xb - xa) * (yb - ya)
            * col[c]) by (nonlinear_arith);
    } else {
        assert((xb - xa) * (yb - ya) * col[c] == 0) by (nonlinear_arith)
            requires
                yb == ya,
        ;
    }
}

/// A flat image is left as it is by the filter.
pub proof fn lemma_kuwahara_keeps_flat_image(img: Raster, r: int, col: [u8; 3])
    requires
        img.wf(),
        flat_color(img, col),
        r >= 0,
    ensures
        kuwahara(img, r) == img,
{
    let f = |x: int, y: int, c: int| kuwahara_chan(img, r, x, y, c);
    assert forall|x: int, y: int, c: int|
        0 <= x < img.width && 0 <= y < img.height && 0 <= c < 4 implies #[trigger] img.data[byte_index(
        img.width,
        x,
        y,
        c,
    )] == f(x, y, c) by {
        if c < 3 {
            lemma_kuwahara_picks_least_variance(img, r, x, y);
            let qs = quadrants(img, r, x, y);
            if let Some(q) = chosen_quadrant(img, r, x, y) {
                let i = choose|i: int| 0 <= i < qs.len() && #[trigger] qs[i] == q;
                assert(0 <= q.x0 <= q.x1 < img.width && 0 <= q.y0 <= q.y1 < img.height);
                lemma_flat_rect_sum(img, col, c, q.x0, q.x1 + 1, q.y0, q.y1 + 1);
                let n = q_count(q);
                assert(q_sum(img, q, c) == n * col[c]);
                assert((n * col[c]) / n == col[c]) by (nonlinear_arith)
                    requires
                        n >= 2,
                ;
                assert(kuwahara_chan(img, r, x, y, c) == col[c]);
            }
            assert(img.chan(x, y, c) == col[c]);
        }
        assert(f(x, y, c) == kuwahara_chan(img, r, x, y, c));
    }
    lemma_raster_from_ext(img.width, img.height, f, img.data);
    assert(kuwahara(img, r) =~= img);
}

/// A radius that reaches past every border gives the same filter as any other
/// such radius: the windows are the whole image.
pub proof fn lemma_radius_beyond_image(img: Raster, r: int, s: int)
    requires
        r >= img.width && r >= img.height,
        s >= img.width && s >= img.height,
    ensures
        kuwahara(img, r) == kuwahara(img, s),
{
    let fr = |x: int, y: int, c: int| kuwahara_chan(img, r, x, y, c);
    let fs = |x: int, y: int, c: int| kuwahara_chan(img, s, x, y, c);
    assert forall|x: int, y: int, c: int|
        0 <= x < img.width && 0 <= y < img.height && 0 <= c < 4 implies #[trigger] kuwahara(
        img,
        r,
    ).data[byte_index(img.width, x, y, c)] == fs(x, y, c) by {
        lemma_raster_from_chan(img.width, img.height, fr, x, y, c);
        assert(window(img, r, x, y) == window(img, s, x, y));
    }
    lemma_raster_from_ext(img.width, img.height, fs, kuwahara(img, r).data);
    assert(kuwahara(img, r) =~= kuwahara(img, s));
}

/// Bounds on every value of a row give bounds on its sum.
proof fn lemma_row_sum_bounds(img: Raster, c: int, y: int, xa: int, xb: int, lo: int, hi: int)
    requires
        xa <= xb,
        forall|x: int| xa <= x < xb ==> lo <= #[trigger] img.chan(x, y, c) <= hi,
    ensures
        (xb - xa) * lo <= row_sum(img, c, y, xa, xb, false) <= (xb - xa) * hi,
    decreases xb - xa,
{
    if xb > xa {
        lemma_row_sum_bounds(img, c, y, xa, xb - 1, lo, hi);
        assert(lo <= img.chan(xb - 1, y, c) <= hi);
        assert((xb - 1 - xa) * lo + lo == (xb - xa) * lo && (xb - 1 - xa) * hi + hi == (xb - xa)
            * hi) by (nonlinear_arith);
    } else {
        assert((xb - xa) * lo == 0 && (xb - xa) * hi == 0) by (nonlinear_arith)
            requires
                xb == xa,
        ;
    }
}

/// Bounds on every value of a rectangle give bounds on its sum.
proof fn lemma_rect_sum_bounds(
    img: Raster,
    c: int,
    xa: int,
    xb: int,
    ya: int,
    yb: int,
    lo: int,
    hi: int,
)
    requires
        xa <= xb,
        ya <= yb,
        forall|x: int, y: int|
            xa <= x < xb && ya <= y < yb ==> lo <= #[trigger] img.chan(x, y, c) <= hi,
    ensures
        (xb - xa) * (yb - ya) * lo <= rect_sum(img, c, xa, xb, ya, yb, false) <= (xb - xa) * (yb
            - ya) * hi,
    decreases yb - ya,
{
    if yb > ya {
        lemma_rect_sum_bounds(img, c, xa, xb, ya, yb - 1, lo, hi);
        lemma_row_sum_bounds(img, c, yb - 1, xa, xb, lo, hi);
        assert((xb - xa) * (yb - 1 - ya) * lo + (xb - xa) * lo == (xb - xa) * (yb - ya) * lo
            && (xb - xa) * (yb - 1 - ya) * hi + (xb - xa) * hi == (xb - xa) * (yb - ya) * hi)
            by (nonlinear_arith);
    } else {
        assert((xb - xa) * (yb - ya) * lo == 0 && (xb - xa) * (yb - ya) * hi == 0)
            by (nonlinear_arith)
            requires
                yb == ya,
        ;
    }
}

/// Pixel `(a, b)` lies in the window of pixel `(x, y)`.
pub open spec fn in_window(img: Raster, r: int, x: int, y: int, a: int, b: int) -> bool {
    let (x0, y0, x1, y1) = window(img, r, x, y);
    x0 <= a <= x1 && y0 <= b <= y1
}

/// Every filtered channel lies between the smallest and the largest value of
/// that channel in the pixel's window.
pub proof fn lemma_kuwahara_within_window(img: Raster, r: int, x: int, y: int, c: int)
    requires
        img.wf(),
        img.in_bounds(x, y),
        r >= 0,
        0 <= c < 3,
    ensures
        exists|a: int, b: int|
            in_window(img, r, x, y, a, b) && #[trigger] img.chan(a, b, c) <= kuwahara(
                img,
                r,
            ).chan(x, y, c),
        exists|a: int, b: int|
            in_window(img, r, x, y, a, b) && kuwahara(img, r).chan(x, y, c)
                <= #[trigger] img.chan(a, b, c),
{
    let f = |x: int, y: int, c: int| kuwahara_chan(img, r, x, y, c);
    lemma_raster_from_chan(img.width, img.height, f, x, y, c);
    let out = kuwahara(img, r).chan(x, y, c);
    lemma_kuwahara_picks_least_variance(img, r, x, y);
    let qs = quadrants(img, r, x, y);
    match chosen_quadrant(img, r, x, y) {
        None => {
            assert(in_window(img, r, x, y, x, y));
            assert(img.chan(x, y, c) == out);
        },
        Some(q) => {
            let i = choose|i: int| 0 <= i < qs.len() && #[trigger] qs[i] == q;
            let n = q_count(q);
            let total = q_sum(img, q, c);
            let m = total / n;
            assert(out == m) by {
                assert(0 <= q.x0 <= q.x1 < img.width && 0 <= q.y0 <= q.y1 < img.height);
                lemma_rect_sum_bounds(img, c, q.x0, q.x1 + 1, q.y0, q.y1 + 1, 0, 255);
                assert(0 <= total / n <= 255) by (nonlinear_arith)
                    requires
                        0 <= total <= n * 255,
                        n >= 1,
                ;
            }
            assert forall|a: int, b: int|
                q.x0 <= a <= q.x1 && q.y0 <= b <= q.y1 implies #[trigger] in_window(
                img,
                r,
                x,
                y,
                a,
                b,
            ) by {}
            if !exists|a: int, b: int|
                in_window(img, r, x, y, a, b) && #[trigger] img.chan(a, b, c) <= out {
                assert forall|a: int, b: int|
                    q.x0 <= a < q.x1 + 1 && q.y0 <= b < q.y1 + 1 implies m + 1 <= #[trigger] img.chan(
                    a,
                    b,
                    c,
                ) <= 255 by {
                    assert(in_window(img, r, x, y, a, b));
                }
                lemma_rect_sum_bounds(img, c, q.x0, q.x1 + 1, q.y0, q.y1 + 1, m + 1, 255);
                assert(false) by (nonlinear_arith)
                    requires
                        n * (m + 1) <= total,
                        m == total / n,
                        n >= 1,
                ;
            }
            if !exists|a: int, b: int|
                in_window(img, r, x, y, a, b) && out <= #[trigger] img.chan(a, b, c) {
                assert forall|a: int, b: int|
                    q.x0 <= a < q.x1 + 1 && q.y0 <= b < q.y1 + 1 implies 0 <= #[trigger] img.chan(
                    a,
                    b,
                    c,
                ) <= m - 1 by {
                    assert(in_window(img, r, x, y, a, b));
                }
                lemma_rect_sum_bounds(img, c, q.x0, q.x1 + 1, q.y0, q.y1 + 1, 0, m - 1);
                assert(false) by (nonlinear_arith)
                    requires
                        total <= n * (m - 1),
                        m == total / n,
                        n >= 1,
                ;
            }
        },
    }
}

/// Largest pixel count of an image: `width * height * 4` bytes fit in a `Vec`.
pub open spec fn max_pixels() -> int {
    0x2000_0000_0000_0000
}

/// An image that fits in a `Vec` has at most `max_pixels()` pixels.
proof fn lemma_pixel_count_bound(img: &RgbaImage)
    requires
        img.wf(),
    ensures
        img@.width * img@.height <= max_pixels(),
{
}

/// `i * w + j` stays below `h * w` for `i < h`, `j < w`.
proof fn lemma_grid_bound(w: int, h: int, i: int, j: int)
    requires
        0 <= i < h,
        0 <= j < w,
    ensures
        0 <= i * w + j < h * w,
        i * w + j + 1 <= h * w,
{
    assert(0 <= i * w + j < h * w) by (nonlinear_arith)
        requires
            0 <= i < h,
            0 <= j < w,
    ;
}

/// Adding a value keeps `k * sum(v^2) >= sum(v)^2` (Cauchy–Schwarz, one step).
proof fn lemma_square_sum_step(k: int, s: int, q: int, v: int)
    requires
        k >= 0,
        q >= 0,
        k * q >= s * s,
    ensures
        (k + 1) * (q + v * v) >= (s + v) * (s + v),
{
    if k == 0 {
        assert(s * s <= 0) by (nonlinear_arith)
            requires
                k == 0,
                k * q >= s * s,
        ;
        assert(s == 0) by (nonlinear_arith)
            requires
                s * s <= 0,
        ;
        assert((k + 1) * (q + v * v) == q + v * v) by (nonlinear_arith)
            requires
                k == 0,
        ;
    } else {
        assert(k * (q + k * v * v - 2 * s * v) >= (s - k * v) * (s - k * v)) by (nonlinear_arith)
            requires
                k * q >= s * s,
        ;
        assert((s - k * v) * (s - k * v) >= 0) by (nonlinear_arith);
        assert(q + k * v * v - 2 * s * v >= 0) by (nonlinear_arith)
            requires
                k > 0,
                k * (q + k * v * v - 2 * s * v) >= 0,
        ;
        assert((k + 1) * (q + v * v) - (s + v) * (s + v) == (k * q - s * s) + (q + k * v * v - 2
            * s * v)) by (nonlinear_arith);
    }
}

/// Sum and sum of squares of channel `c` over columns `xa..xb`, rows `ya..yb`.
fn channel_sums(img: &RgbaImage, c: usize, xa: u32, xb: u32, ya: u32, yb: u32) -> (res: (
    u128,
    u128,
))
    requires
        img.wf(),
        c < 3,
        xa < xb <= img@.width,
        ya < yb <= img@.height,
        (xb - xa) * (yb - ya) <= max_pixels(),
    ensures
        res.0 == rect_sum(img@, c as int, xa as int, xb as int, ya as int, yb as int, false),
        res.1 == rect_sum(img@, c as int, xa as int, xb as int, ya as int, yb as int, true),
        res.0 <= 255 * ((xb - xa) * (yb - ya)),
        res.1 <= 65025 * ((xb - xa) * (yb - ya)),
        ((xb - xa) * (yb - ya)) * res.1 >= res.0 * res.0,
{
    let ghost wq = (xb - xa) as int;
    let ghost hq = (yb - ya) as int;
    let mut s: u128 = 0;
    let mut q: u128 = 0;
    let mut y = ya;
    while y < yb
        invariant
            img.wf(),
            c < 3,
            xa < xb <= img@.width,
            ya <= y <= yb <= img@.height,
            wq == xb - xa,
            hq == yb - ya,
            wq * hq <= max_pixels(),
            s == rect_sum(img@, c as int, xa as int, xb as int, ya as int, y as int, false),
            q == rect_sum(img@, c as int, xa as int, xb as int, ya as int, y as int, true),
            s <= 255 * ((y - ya) * wq),
            q <= 65025 * ((y - ya) * wq),
            ((y - ya) * wq) * q >= s * s,
        decreases yb - y,
    {
        let mut x = xa;
        while x < xb
            invariant
                img.wf(),
                c < 3,
                xa <= x <= xb <= img@.width,
                ya <= y < yb <= img@.height,
                wq == xb - xa,
                hq == yb - ya,
                wq * hq <= max_pixels(),
                s == rect_sum(img@, c as int, xa as int, xb as int, ya as int, y as int, false)
                    + row_sum(img@, c as int, y as int, xa as int, x as int, false),
                q == rect_sum(img@, c as int, xa as int, xb as int, ya as int, y as int, true)
                    + row_sum(img@, c as int, y as int, xa as int, x as int, true),
                s <= 255 * ((y - ya) * wq + (x - xa)),
                q <= 65025 * ((y - ya) * wq + (x - xa)),
                ((y - ya) * wq + (x - xa)) * q >= s * s,
            decreases xb - x,
        {
            proof {
                lemma_grid_bound(wq, hq, (y - ya) as int, (x - xa) as int);
            }
            let v = img.channel(x, y, c);
            proof {
                lemma_square_sum_step(((y - ya) * wq + (x - xa)) as int, s as int, q as int, v as int);
            }
            assert(v * v <= 65025) by (nonlinear_arith)
                requires
                    v <= 255,
            ;
            s = s + v as u128;
            q = q + (v as u128) * (v as u128);
            x = x + 1;
        }
        proof {
            lemma_next_row(wq as nat, (y - ya) as int);
        }
        y = y + 1;
    }
    assert(hq * wq == wq * hq) by (nonlinear_arith);
    (s, q)
}

/// Exact statistics of one quadrant: its pixel count `n`, `n^2`, the channel
/// sums, and `n^2` times its variance split as `quot * n^2 + rem`.
struct QuadStats {
    n: u128,
    nn: u128,
    quot: u128,
    rem: u128,
    sum: [u128; 3],
}

/// `st` holds the statistics of `q`.
spec fn stats_of(st: QuadStats, img: Raster, q: Quadrant) -> bool {
    &&& st.n == q_count(q)
    &&& 1 <= st.n <= max_pixels()
    &&& st.nn == st.n * st.n
    &&& st.quot * st.nn + st.rem == q_spread(img, q)
    &&& st.rem < st.nn
    &&& forall|c: int| 0 <= c < 3 ==> #[trigger] st.sum[c] == q_sum(img, q, c)
    &&& forall|c: int| 0 <= c < 3 ==> #[trigger] st.sum[c] <= 255 * st.n
}

/// One channel's spread `n * ss - s^2` written as `n * u - t^2` with the
/// remainder `t = s mod n`, so that no intermediate value exceeds 128 bits.
fn centered_moments(n: u128, s: u128, ss: u128) -> (res: (u128, u128))
    requires
        1 <= n <= max_pixels(),
        s <= 255 * n,
        ss <= 65025 * n,
        n * ss >= s * s,
    ensures
        n * res.0 - res.1 * res.1 == n * ss - s * s,
        res.0 <= ss,
        res.1 < n,
{
    let m = s / n;
    let t = s % n;
    proof {
        vstd::arithmetic::div_mod::lemma_fundamental_div_mod(s as int, n as int);
        assert(m <= 255) by (nonlinear_arith)
            requires
                s <= 255 * n,
                n >= 1,
                m == s / n,
        ;
        assert(s == n * m + t);
        assert(n * ss - s * s == n * (ss - n * m * m - 2 * m * t) - t * t) by (nonlinear_arith)
            requires
                s == n * m + t,
        ;
        assert(n * (ss - n * m * m - 2 * m * t) >= t * t) by (nonlinear_arith)
            requires
                n * ss - s * s == n * (ss - n * m * m - 2 * m * t) - t * t,
                n * ss >= s * s,
        ;
        assert(ss - n * m * m - 2 * m * t >= 0) by (nonlinear_arith)
            requires
                n * (ss - n * m * m - 2 * m * t) >= t * t,
                n >= 1,
        ;
        assert(n * m * m <= 65025 * max_pixels() && 2 * m * t <= 510 * max_pixels())
            by (nonlinear_arith)
            requires
                m <= 255,
                t < n,
                n <= max_pixels(),
        ;
    }
    let nmm = n * m * m;
    let mt2 = 2 * m * t;
    (ss - nmm - mt2, t)
}

/// `sum_c (n * ss_c - s_c^2)` as `quot * n^2 + rem` with `rem < n^2`.
fn spread_parts(n: u128, s: [u128; 3], ss: [u128; 3]) -> (res: (u128, u128))
    requires
        1 <= n <= max_pixels(),
        forall|c: int| 0 <= c < 3 ==> #[trigger] s[c] <= 255 * n,
        forall|c: int| 0 <= c < 3 ==> #[trigger] ss[c] <= 65025 * n,
        forall|c: int| 0 <= c < 3 ==> n * #[trigger] ss[c] >= s[c] * s[c],
    ensures
        res.0 * (n * n) + res.1 == (n * ss[0] - s[0] * s[0]) + (n * ss[1] - s[1] * s[1]) + (n
            * ss[2] - s[2] * s[2]),
        res.1 < n * n,
{
    let (u0, t0) = centered_moments(n, s[0], ss[0]);
    let (u1, t1) = centered_moments(n, s[1], ss[1]);
    let (u2, t2) = centered_moments(n, s[2], ss[2]);
    let ghost v = (n * ss[0] - s[0] * s[0]) + (n * ss[1] - s[1] * s[1]) + (n * ss[2] - s[2]
        * s[2]);
    proof {
        assert(t0 * t0 < n * n && t1 * t1 < n * n && t2 * t2 < n * n) by (nonlinear_arith)
            requires
                t0 < n,
                t1 < n,
                t2 < n,
        ;
        assert(n * n <= max_pixels() * max_pixels()) by (nonlinear_arith)
            requires
                1 <= n <= max_pixels(),
        ;
        assert(n * ss[0] - s[0] * s[0] >= 0);
        assert(n * ss[1] - s[1] * s[1] >= 0);
        assert(n * ss[2] - s[2] * s[2] >= 0);
    }
    let uu = u0 + u1 + u2;
    let tt = t0 * t0 + t1 * t1 + t2 * t2;
    let nn = n * n;
    proof {
        assert(v == n * uu - tt) by (nonlinear_arith)
            requires
                n * u0 - t0 * t0 == n * ss[0] - s[0] * s[0],
                n * u1 - t1 * t1 == n * ss[1] - s[1] * s[1],
                n * u2 - t2 * t2 == n * ss[2] - s[2] * s[2],
                v == (n * ss[0] - s[0] * s[0]) + (n * ss[1] - s[1] * s[1]) + (n * ss[2] - s[2]
                    * s[2]),
                uu == u0 + u1 + u2,
                tt == t0 * t0 + t1 * t1 + t2 * t2,
        ;
    }
    let g = tt / n;
    let e = tt % n;
    proof {
        vstd::arithmetic::div_mod::lemma_fundamental_div_mod(tt as int, n as int);
        assert(tt == n * g + e);
        assert(g <= uu) by (nonlinear_arith)
            requires
                tt == n * g + e,
                0 <= e,
                tt <= n * uu,
                n >= 1,
        ;
    }
    let k = uu - g;
    let alpha = k / n;
    let beta = k % n;
    proof {
        vstd::arithmetic::div_mod::lemma_fundamental_div_mod(k as int, n as int);
        assert(v == nn * alpha + beta * n - e) by (nonlinear_arith)
            requires
                v == n * uu - tt,
                tt == n * g + e,
                k == uu - g,
                k == n * alpha + beta,
                nn == n * n,
        ;
        assert(beta * n < nn) by (nonlinear_arith)
            requires
                beta < n,
                nn == n * n,
        ;
    }
    let bn = beta * n;
    proof {
        assert(n <= nn) by (nonlinear_arith)
            requires
                n >= 1,
                nn == n * n,
        ;
        assert(alpha * (n * n) == nn * alpha) by (nonlinear_arith)
            requires
                nn == n * n,
        ;
        assert((alpha - 1) * (n * n) == nn * alpha - nn) by (nonlinear_arith)
            requires
                nn == n * n,
        ;
    }
    if bn >= e {
        (alpha, bn - e)
    } else {
        proof {
            assert(alpha >= 1) by (nonlinear_arith)
                requires
                    v == nn * alpha + bn - e,
                    v >= 0,
                    bn < e,
                    nn > 0,
                    alpha >= 0,
            ;
        }
        (alpha - 1, nn + bn - e)
    }
}

/// Statistics of the quadrant `qx0..=qx1`, `qy0..=qy1`.
fn quadrant_stats(img: &RgbaImage, qx0: u32, qy0: u32, qx1: u32, qy1: u32) -> (st: QuadStats)
    requires
        img.wf(),
        qx0 <= qx1 < img@.width,
        qy0 <= qy1 < img@.height,
    ensures
        stats_of(st, img@, Quadrant { x0: qx0 as int, y0: qy0 as int, x1: qx1 as int, y1: qy1 as int }),
{
    let wq = (qx1 - qx0 + 1) as u128;
    let hq = (qy1 - qy0 + 1) as u128;
    proof {
        lemma_pixel_count_bound(img);
        assert(1 <= wq * hq <= img@.width * img@.height) by (nonlinear_arith)
            requires
                1 <= wq <= img@.width,
                1 <= hq <= img@.height,
        ;
    }
    let n = wq * hq;
    let (s0, q0) = channel_sums(img, 0, qx0, qx1 + 1, qy0, qy1 + 1);
    let (s1, q1) = channel_sums(img, 1, qx0, qx1 + 1, qy0, qy1 + 1);
    let (s2, q2) = channel_sums(img, 2, qx0, qx1 + 1, qy0, qy1 + 1);
    let sums = [s0, s1, s2];
    let squares = [q0, q1, q2];
    assert(sums[0] == s0 && sums[1] == s1 && sums[2] == s2);
    assert(squares[0] == q0 && squares[1] == q1 && squares[2] == q2);
    let (quot, rem) = spread_parts(n, sums, squares);
    proof {
        assert(n * n <= max_pixels() * max_pixels()) by (nonlinear_arith)
            requires
                1 <= n <= max_pixels(),
        ;
    }
    QuadStats { n, nn: n * n, quot, rem, sum: sums }
}

/// Comparing `q_a + r_a / A` with `q_b + r_b / B` for remainders below their
/// denominators: the whole parts decide unless they are equal.
proof fn lemma_mixed_less(qa: int, ra: int, a: int, qb: int, rb: int, b: int)
    requires
        0 <= ra < a,
        0 <= rb < b,
    ensures
        ((qa * a + ra) * b < (qb * b + rb) * a) == (qa < qb || (qa == qb && ra * b < rb * a)),
{
    let p = a * b;
    assert(p > 0 && 0 <= ra * b < p && 0 <= rb * a < p) by (nonlinear_arith)
        requires
            0 <= ra < a,
            0 <= rb < b,
            p == a * b,
    ;
    assert((qa * a + ra) * b == qa * p + ra * b && (qb * b + rb) * a == qb * p + rb * a)
        by (nonlinear_arith)
        requires
            p == a * b,
    ;
    if qa < qb {
        assert(qa * p + p <= qb * p) by (nonlinear_arith)
            requires
                qa < qb,
                p > 0,
        ;
    } else if qb < qa {
        assert(qb * p + p <= qa * p) by (nonlinear_arith)
            requires
                qb < qa,
                p > 0,
        ;
    }
}

/// Whether `a / b < c / d`, by comparing continued-fraction expansions, so
/// that nothing is multiplied.
fn frac_less(a: u128, b: u128, c: u128, d: u128) -> (r: bool)
    requires
        b > 0,
        d > 0,
    ensures
        r == (a * d < c * b),
    decreases b + d,
{
    let qa = a / b;
    let ra = a % b;
    let qc = c / d;
    let rc = c % d;
    proof {
        vstd::arithmetic::div_mod::lemma_fundamental_div_mod(a as int, b as int);
        vstd::arithmetic::div_mod::lemma_fundamental_div_mod(c as int, d as int);
        assert(a == b * qa + ra && c == d * qc + rc);
        assert(a * d == (qa * b + ra) * d && c * b == (qc * d + rc) * b) by (nonlinear_arith)
            requires
                a == b * qa + ra,
                c == d * qc + rc,
        ;
        lemma_mixed_less(qa as int, ra as int, b as int, qc as int, rc as int, d as int);
        assert(0 <= ra * d && 0 <= rc * b) by (nonlinear_arith);
    }
    if qa != qc {
        qa < qc
    } else if rc == 0 {
        assert(rc * b == 0) by (nonlinear_arith)
            requires
                rc == 0,
        ;
        false
    } else if ra == 0 {
        assert(rc * b > 0 && ra * d == 0) by (nonlinear_arith)
            requires
                rc > 0,
                b > 0,
                ra == 0,
        ;
        true
    } else {
        let r = frac_less(d, rc, b, ra);
        assert(d * ra == ra * d && b * rc == rc * b) by (nonlinear_arith);
        r
    }
}

/// Whether the quadrant of `a` has a strictly lower variance than that of `b`.
fn lower_variance_exec(
    a: &QuadStats,
    b: &QuadStats,
    Ghost(img): Ghost<Raster>,
    Ghost(qa): Ghost<Quadrant>,
    Ghost(qb): Ghost<Quadrant>,
) -> (r: bool)
    requires
        stats_of(*a, img, qa),
        stats_of(*b, img, qb),
    ensures
        r == lower_variance(img, qa, qb),
{
    proof {
        lemma_mixed_less(
            a.quot as int,
            a.rem as int,
            a.nn as int,
            b.quot as int,
            b.rem as int,
            b.nn as int,
        );
    }
    a.quot < b.quot || (a.quot == b.quot && frac_less(a.rem, a.nn, b.rem, b.nn))
}

/// One step of the scan: `consider` on executable statistics.
fn consider_quadrant(
    img: &RgbaImage,
    best: Option<QuadStats>,
    Ghost(best_q): Ghost<Option<Quadrant>>,
    qx0: u32,
    qy0: u32,
    qx1: u32,
    qy1: u32,
) -> (res: (Option<QuadStats>, Ghost<Option<Quadrant>>))
    requires
        img.wf(),
        qx0 <= qx1 < img@.width,
        qy0 <= qy1 < img@.height,
        best is Some <==> best_q is Some,
        best matches Some(b) ==> stats_of(b, img@, best_q->0),
    ensures
        res.1@ == consider(
            img@,
            best_q,
            Quadrant { x0: qx0 as int, y0: qy0 as int, x1: qx1 as int, y1: qy1 as int },
        ),
        res.0 is Some <==> res.1@ is Some,
        res.0 matches Some(b) ==> stats_of(b, img@, res.1@->0),
{
    let ghost quad = Quadrant { x0: qx0 as int, y0: qy0 as int, x1: qx1 as int, y1: qy1 as int };
    let st = quadrant_stats(img, qx0, qy0, qx1, qy1);
    if st.n < 2 {
        return (best, Ghost(best_q));
    }
    match best {
        None => (Some(st), Ghost(Some(quad))),
        Some(b) => {
            if lower_variance_exec(&st, &b, Ghost(img@), Ghost(quad), Ghost(best_q->0)) {
                (Some(st), Ghost(Some(quad)))
            } else {
                (Some(b), Ghost(best_q))
            }
        },
    }
}

/// The filtered pixel `(x, y)`.
fn kuwahara_pixel(img: &RgbaImage, radius: u32, x: u32, y: u32) -> (p: [u8; 4])
    requires
        img.wf(),
        img@.in_bounds(x as int, y as int),
    ensures
        forall|c: int| 0 <= c < 4 ==> p[c] == kuwahara_chan(img@, radius as int, x as int, y as int, c),
{
    let (w, h) = img.dimensions();
    let x0 = if x > radius { x - radius } else { 0 };
    let y0 = if y > radius { y - radius } else { 0 };
    let x1 = if (x as u64) + (radius as u64) < (w as u64) - 1 { x + radius } else { w - 1 };
    let y1 = if (y as u64) + (radius as u64) < (h as u64) - 1 { y + radius } else { h - 1 };
    assert(window(img@, radius as int, x as int, y as int) == (x0 as int, y0 as int, x1 as int, y1 as int));
    let (b1, Ghost(g1)) = consider_quadrant(img, None, Ghost(None), x0, y0, x, y);
    let (b2, Ghost(g2)) = consider_quadrant(img, b1, Ghost(g1), x, y0, x1, y);
    let (b3, Ghost(g3)) = consider_quadrant(img, b2, Ghost(g2), x0, y, x, y1);
    let (b4, Ghost(g4)) = consider_quadrant(img, b3, Ghost(g3), x, y, x1, y1);
    let own = img.get_pixel(x, y);
    match b4 {
        None => own.0,
        Some(st) => {
            proof {
                assert forall|c: int| 0 <= c < 3 implies #[trigger] (st.sum[c] / st.n) <= 255 by {
                    let s = st.sum[c] as int;
                    let n = st.n as int;
                    assert(s / n <= 255) by (nonlinear_arith)
                        requires
                            0 <= s <= 255 * n,
                            n >= 1,
                    ;
                }
            }
            [
                (st.sum[0] / st.n) as u8,
                (st.sum[1] / st.n) as u8,
                (st.sum[2] / st.n) as u8,
                own.0[3],
            ]
        },
    }
}

/// Applies the Kuwahara filter with the given radius.
///
/// Each pixel's neighbourhood (clipped to the image) is split into four
/// overlapping quadrants that share the pixel; among those of at least two
/// pixels, the first with the lowest colour variance gives the pixel its mean
/// colour. A pixel none of whose quadrants holds two pixels (a 1x1 image, or
/// radius 0) keeps its colour. Alpha is kept. Variances are compared exactly,
/// and any radius is accepted: a radius beyond the image's size acts as the
/// image's size.
pub fn kuwahara_filter(buf: &RgbaImage, radius: u32) -> (out: RgbaImage)
    requires
        buf.wf(),
    ensures
        out.wf(),
        out@ == kuwahara(buf@, radius as int),
{
    let (w, h) = buf.dimensions();
    let ghost src = buf@;
    let ghost f = |x: int, y: int, c: int| kuwahara_chan(src, radius as int, x, y, c);
    let mut out: Vec<u8> = Vec::new();
    let mut y: u32 = 0;
    while y < h
        invariant
            buf.wf(),
            buf@ == src,
            w == src.width,
            h == src.height,
            f == (|x: int, y: int, c: int| kuwahara_chan(src, radius as int, x, y, c)),
            y <= h,
            out@.len() == y * w * 4,
            forall|k: int|
                0 <= k < out@.len() ==> out@[k] == raster_from(w as nat, h as nat, f).data[k],
        decreases h - y,
    {
        let mut x: u32 = 0;
        while x < w
            invariant
                buf.wf(),
                buf@ == src,
                w == src.width,
                h == src.height,
                f == (|x: int, y: int, c: int| kuwahara_chan(src, radius as int, x, y, c)),
                y < h,
                x <= w,
                out@.len() == (y * w + x) * 4,
                forall|k: int|
                    0 <= k < out@.len() ==> out@[k] == raster_from(w as nat, h as nat, f).data[k],
            decreases w - x,
        {
            let p = kuwahara_pixel(buf, radius, x, y);
            proof {
                lemma_raster_from_chan(w as nat, h as nat, f, x as int, y as int, 0);
                lemma_raster_from_chan(w as nat, h as nat, f, x as int, y as int, 1);
                lemma_raster_from_chan(w as nat, h as nat, f, x as int, y as int, 2);
                lemma_raster_from_chan(w as nat, h as nat, f, x as int, y as int, 3);
            }
            out.push(p[0]);
            out.push(p[1]);
            out.push(p[2]);
            out.push(p[3]);
            x += 1;
        }
        proof {
            lemma_next_row(w as nat, y as int);
        }
        y += 1;
    }
    assert((h as int) * (w as int) == (w as int) * (h as int)) by (nonlinear_arith);
    assert(out@ =~= raster_from(w as nat, h as nat, f).data);
    RgbaImage::from_parts(w, h, out)
}

} // verus!
