//! RGBA rasters: the pixel type, the mathematical model of an image and the
//! executable image buffer that the filters work on.
use vstd::prelude::*;
use vstd::arithmetic::div_mod::lemma_fundamental_div_mod_converse;

verus! {

/// One RGBA pixel: red, green, blue and alpha, in that order.
#[derive(Clone, Copy, Debug)]
pub struct Rgba(pub [u8; 4]);

/// Model of an RGBA raster: `width * height` pixels stored row by row,
/// four bytes per pixel.
pub struct Raster {
    pub width: nat,
    pub height: nat,
    pub data: Seq<u8>,
}

/// Position of channel `c` of pixel `(x, y)` in a row-major RGBA buffer.
pub open spec fn byte_index(width: nat, x: int, y: int, c: int) -> int {
    (y * width + x) * 4 + c
}

impl Raster {
    /// The buffer holds exactly four bytes per pixel.
    pub open spec fn wf(self) -> bool {
        self.data.len() == self.width * self.height * 4
    }

    pub open spec fn in_bounds(self, x: int, y: int) -> bool {
        0 <= x < self.width && 0 <= y < self.height
    }

    /// Channel `c` of pixel `(x, y)`.
    pub open spec fn chan(self, x: int, y: int, c: int) -> u8 {
        self.data[byte_index(self.width, x, y, c)]
    }

    /// The raster with pixel `(x, y)` replaced by `p`.
    pub open spec fn with_pixel(self, x: int, y: int, p: [u8; 4]) -> Raster {
        let i = byte_index(self.width, x, y, 0);
        Raster {
            width: self.width,
            height: self.height,
            data: self.data.update(i, p[0]).update(i + 1, p[1]).update(i + 2, p[2]).update(
                i + 3,
                p[3],
            ),
        }
    }
}

/// Every pixel of the image has the colour `col` (alpha may vary).
pub open spec fn flat_color(img: Raster, col: [u8; 3]) -> bool {
    forall|x: int, y: int, c: int|
        img.in_bounds(x, y) && 0 <= c < 3 ==> #[trigger] img.chan(x, y, c) == col[c]
}

/// The raster of the given size whose channel `c` at `(x, y)` is `f(x, y, c)`.
pub open spec fn raster_from(width: nat, height: nat, f: spec_fn(int, int, int) -> u8) -> Raster {
    Raster {
        width,
        height,
        data: Seq::new(
            width * height * 4,
            |i: int| f((i / 4) % (width as int), (i / 4) / (width as int), i % 4),
        ),
    }
}

/// A channel of an in-bounds pixel lies inside the buffer.
pub proof fn lemma_byte_index_bounds(width: nat, height: nat, x: int, y: int, c: int)
    requires
        0 <= x < width,
        0 <= y < height,
        0 <= c < 4,
    ensures
        0 <= y * width + x < width * height,
        0 <= byte_index(width, x, y, c),
        byte_index(width, x, y, c) + 4 - c <= width * height * 4,
{
    assert(0 <= y * width) by (nonlinear_arith)
        requires
            0 <= y,
    ;
    assert(y * width + x < width * height) by (nonlinear_arith)
        requires
            0 <= x < width,
            0 <= y < height,
    ;
}

/// The byte index of `(x, y, c)` determines `x`, `y` and `c` again.
pub proof fn lemma_byte_index_decompose(width: nat, x: int, y: int, c: int)
    requires
        0 <= x < width,
        0 <= y,
        0 <= c < 4,
    ensures
        byte_index(width, x, y, c) / 4 == y * width + x,
        byte_index(width, x, y, c) % 4 == c,
        (y * width + x) % (width as int) == x,
        (y * width + x) / (width as int) == y,
{
    let p = y * width + x;
    lemma_fundamental_div_mod_converse(byte_index(width, x, y, c), 4, p, c);
    assert(p == y * (width as int) + x);
    lemma_fundamental_div_mod_converse(p, width as int, y, x);
}

/// Reading a pixel of `raster_from(w, h, f)` gives back `f`.
pub proof fn lemma_raster_from_chan(
    width: nat,
    height: nat,
    f: spec_fn(int, int, int) -> u8,
    x: int,
    y: int,
    c: int,
)
    requires
        0 <= x < width,
        0 <= y < height,
        0 <= c < 4,
    ensures
        raster_from(width, height, f).chan(x, y, c) == f(x, y, c),
        raster_from(width, height, f).data[byte_index(width, x, y, c)] == f(x, y, c),
{
    lemma_byte_index_bounds(width, height, x, y, c);
    lemma_byte_index_decompose(width, x, y, c);
}

/// A buffer that agrees with `f` on every channel of every pixel is the data of
/// `raster_from(w, h, f)`.
pub proof fn lemma_raster_from_ext(
    width: nat,
    height: nat,
    f: spec_fn(int, int, int) -> u8,
    data: Seq<u8>,
)
    requires
        data.len() == width * height * 4,
        forall|x: int, y: int, c: int|
            0 <= x < width && 0 <= y < height && 0 <= c < 4 ==> #[trigger] data[byte_index(
                width,
                x,
                y,
                c,
            )] == f(x, y, c),
    ensures
        data == raster_from(width, height, f).data,
{
    let target = raster_from(width, height, f).data;
    assert forall|i: int| 0 <= i < data.len() implies data[i] == target[i] by {
        let w = width as int;
        let p = i / 4;
        let c = i % 4;
        assert(0 < width) by (nonlinear_arith)
            requires
                0 <= i < width * height * 4,
        ;
        let x = p % w;
        let y = p / w;
        assert(i == p * 4 + c);
        vstd::arithmetic::div_mod::lemma_fundamental_div_mod(p, w);
        assert(p == y * w + x);
        assert(0 <= p < w * height) by (nonlinear_arith)
            requires
                i == p * 4 + c,
                0 <= c < 4,
                0 <= i < w * height * 4,
        ;
        assert(0 <= y < height) by (nonlinear_arith)
            requires
                p == y * w + x,
                0 <= x < w,
                0 <= p < w * height,
        ;
        assert(byte_index(width, x, y, c) == i);
    }
    assert(data =~= target);
}

/// Moving from the end of row `y` to the start of row `y + 1`.
pub proof fn lemma_next_row(width: nat, y: int)
    ensures
        y * width + width == (y + 1) * width,
{
    assert(y * width + width == (y + 1) * width) by (nonlinear_arith);
}

/// An RGBA image buffer: `width * height` pixels, row by row, four bytes each.
pub struct RgbaImage {
    width: u32,
    height: u32,
    data: Vec<u8>,
}

impl View for RgbaImage {
    type V = Raster;

    closed spec fn view(&self) -> Raster {
        Raster { width: self.width as nat, height: self.height as nat, data: self.data@ }
    }
}

impl RgbaImage {
    /// The buffer matches the dimensions, and its length is one that a `Vec`
    /// can have (at most `isize::MAX` bytes).
    pub open spec fn wf(&self) -> bool {
        &&& self@.wf()
        &&& self@.width * self@.height * 4 <= isize::MAX
        &&& self@.width <= u32::MAX
        &&& self@.height <= u32::MAX
    }

    /// A fully transparent black image, as `image::RgbaImage::new` makes it.
    pub fn new(width: u32, height: u32) -> (img: Self)
        requires
            width * height * 4 <= isize::MAX,
        ensures
            img.wf(),
            img@.width == width,
            img@.height == height,
            forall|i: int| 0 <= i < img@.data.len() ==> img@.data[i] == 0,
    {
        assert(0 <= width * height) by (nonlinear_arith);
        let len = (width as usize) * (height as usize) * 4;
        let mut data: Vec<u8> = Vec::new();
        while data.len() < len
            invariant
                data.len() <= len,
                forall|i: int| 0 <= i < data.len() ==> data@[i] == 0,
            decreases len - data.len(),
        {
            data.push(0);
        }
        RgbaImage { width, height, data }
    }

    /// An image over the given row-major RGBA bytes; `None` when their number
    /// is not `width * height * 4` (or exceeds what a `Vec` can hold).
    pub fn from_rgba_bytes(width: u32, height: u32, data: Vec<u8>) -> (img: Option<Self>)
        ensures
            img is Some <==> data@.len() == width * height * 4 && width * height * 4
                <= isize::MAX,
            img matches Some(i) ==> i.wf() && i@ == (Raster { width: width as nat, height: height as nat, data: data@ }),
    {
        let ghost n = width * height * 4;
        assert(0 <= width * height) by (nonlinear_arith);
        let w64 = width as u64;
        let h64 = height as u64;
        assert(w64 * h64 <= 0xffff_ffff * 0xffff_ffffu64) by (nonlinear_arith)
            requires
                w64 <= 0xffff_ffff,
                h64 <= 0xffff_ffff,
        ;
        let wh = w64 * h64;
        let len = data.len();
        if wh > (isize::MAX as u64) / 4 {
            return None;
        }
        if len != (wh as usize) * 4 {
            return None;
        }
        Some(RgbaImage { width, height, data })
    }

    /// An image over bytes already known to fit the dimensions.
    pub(crate) fn from_parts(width: u32, height: u32, data: Vec<u8>) -> (img: Self)
        requires
            data@.len() == width * height * 4,
            width * height * 4 <= isize::MAX,
        ensures
            img.wf(),
            img@ == (Raster { width: width as nat, height: height as nat, data: data@ }),
    {
        RgbaImage { width, height, data }
    }

    /// The row-major RGBA bytes of the image.
    pub fn into_raw(self) -> (data: Vec<u8>)
        ensures
            data@ == self@.data,
    {
        self.data
    }

    /// A view of the row-major RGBA bytes of the image.
    pub fn as_raw(&self) -> (data: &Vec<u8>)
        ensures
            data@ == self@.data,
    {
        &self.data
    }

    pub fn width(&self) -> (w: u32)
        ensures
            w == self@.width,
    {
        self.width
    }

    pub fn height(&self) -> (h: u32)
        ensures
            h == self@.height,
    {
        self.height
    }

    /// `(width, height)`.
    pub fn dimensions(&self) -> (d: (u32, u32))
        ensures
            d.0 == self@.width,
            d.1 == self@.height,
    {
        (self.width, self.height)
    }

    /// Channel `c` of pixel `(x, y)`.
    pub fn channel(&self, x: u32, y: u32, c: usize) -> (v: u8)
        requires
            self.wf(),
            self@.in_bounds(x as int, y as int),
            c < 4,
        ensures
            v == self@.chan(x as int, y as int, c as int),
    {
        proof {
            lemma_byte_index_bounds(self@.width, self@.height, x as int, y as int, c as int);
        }
        let i = ((y as usize) * (self.width as usize) + (x as usize)) * 4 + c;
        self.data[i]
    }

    /// The pixel at `(x, y)`; the coordinates must lie inside the image.
    pub fn get_pixel(&self, x: u32, y: u32) -> (p: Rgba)
        requires
            self.wf(),
            self@.in_bounds(x as int, y as int),
        ensures
            forall|c: int| 0 <= c < 4 ==> p.0[c] == self@.chan(x as int, y as int, c),
    {
        Rgba(
            [
                self.channel(x, y, 0),
                self.channel(x, y, 1),
                self.channel(x, y, 2),
                self.channel(x, y, 3),
            ],
        )
    }

    /// The pixel at `(x, y)`, or `None` outside the image.
    pub fn get_pixel_checked(&self, x: u32, y: u32) -> (p: Option<Rgba>)
        requires
            self.wf(),
        ensures
            p is Some <==> self@.in_bounds(x as int, y as int),
            p matches Some(q) ==> forall|c: int|
                0 <= c < 4 ==> q.0[c] == self@.chan(x as int, y as int, c),
    {
        if x < self.width && y < self.height {
            Some(self.get_pixel(x, y))
        } else {
            None
        }
    }

    /// Replaces the pixel at `(x, y)`; the coordinates must lie inside the image.
    pub fn put_pixel(&mut self, x: u32, y: u32, p: Rgba)
        requires
            old(self).wf(),
            old(self)@.in_bounds(x as int, y as int),
        ensures
            final(self).wf(),
            final(self)@ == old(self)@.with_pixel(x as int, y as int, p.0),
    {
        proof {
            lemma_byte_index_bounds(self@.width, self@.height, x as int, y as int, 0);
        }
        let i = ((y as usize) * (self.width as usize) + (x as usize)) * 4;
        self.data.set(i, p.0[0]);
        self.data.set(i + 1, p.0[1]);
        self.data.set(i + 2, p.0[2]);
        self.data.set(i + 3, p.0[3]);
    }
}

} // verus!
