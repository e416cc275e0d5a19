//! The decisions of the live webcam view: keyboard controls, turning camera
//! frames into RGBA images and copying painted images into the window's
//! frame buffer.
use vstd::prelude::*;
use vstd::string::StrSliceExecFns;
use crate::config::PaintConfig;
use crate::raster::{
    byte_index, lemma_byte_index_bounds, lemma_byte_index_decompose, lemma_next_row,
    lemma_raster_from_chan, raster_from, Raster, RgbaImage,
};

verus! {

/// Largest pixel size that the arrow keys reach.
pub const MAX_PIXEL_SIZE: u32 = 32;

/// A key as the window reports it.
pub enum Key {
    ArrowUp,
    ArrowDown,
    Escape,
    /// A key that produces text.
    Character(String),
    Other,
}

/// What the application does after a key.
#[derive(PartialEq, Eq, Structural, Clone, Copy, Debug)]
pub enum KeyAction {
    Continue,
    Exit,
}

/// The text is exactly one of the two characters.
pub open spec fn is_letter(s: Seq<char>, lower: char, upper: char) -> bool {
    s == seq![lower] || s == seq![upper]
}

/// Settings and action after a key event. Only presses count. The arrows
/// step the pixel size up (at most `MAX_PIXEL_SIZE`) or down (at least 1);
/// `p` toggles the extended palette, `d` toggles dithering, Escape exits.
pub open spec fn key_outcome(config: PaintConfig, key: Key, pressed: bool) -> (PaintConfig, KeyAction) {
    if !pressed {
        (config, KeyAction::Continue)
    } else {
        match key {
            Key::ArrowUp => (
                PaintConfig {
                    downscale_factor: if config.downscale_factor + 1 < MAX_PIXEL_SIZE {
                        (config.downscale_factor + 1) as u32
                    } else {
                        MAX_PIXEL_SIZE
                    },
                    ..config
                },
                KeyAction::Continue,
            ),
            Key::ArrowDown => (
                PaintConfig {
                    downscale_factor: if config.downscale_factor > 2 {
                        (config.downscale_factor - 1) as u32
                    } else {
                        1
                    },
                    ..config
                },
                KeyAction::Continue,
            ),
            Key::Character(s) => if is_letter(s@, 'p', 'P') {
                (PaintConfig { extended_palette: !config.extended_palette, ..config }, KeyAction::Continue)
            } else if is_letter(s@, 'd', 'D') {
                (PaintConfig { dithering: !config.dithering, ..config }, KeyAction::Continue)
            } else {
                (config, KeyAction::Continue)
            },
            Key::Escape => (config, KeyAction::Exit),
            Key::Other => (config, KeyAction::Continue),
        }
    }
}

/// Releasing a key changes nothing.
pub proof fn lemma_release_changes_nothing(config: PaintConfig, key: Key)
    ensures
        key_outcome(config, key, false) == (config, KeyAction::Continue),
{
}

/// The pixel size stays within `1..=MAX_PIXEL_SIZE` under every key.
pub proof fn lemma_pixel_size_stays_in_range(config: PaintConfig, key: Key, pressed: bool)
    requires
        1 <= config.downscale_factor <= MAX_PIXEL_SIZE,
    ensures
        1 <= key_outcome(config, key, pressed).0.downscale_factor <= MAX_PIXEL_SIZE,
{
}

/// Below the maximum, up then down gives the settings back.
pub proof fn lemma_up_then_down_restores(config: PaintConfig)
    requires
        1 <= config.downscale_factor < MAX_PIXEL_SIZE,
    ensures
        key_outcome(key_outcome(config, Key::ArrowUp, true).0, Key::ArrowDown, true).0 == config,
{
}

/// Above the minimum, down then up gives the settings back.
pub proof fn lemma_down_then_up_restores(config: PaintConfig)
    requires
        1 < config.downscale_factor <= MAX_PIXEL_SIZE,
    ensures
        key_outcome(key_outcome(config, Key::ArrowDown, true).0, Key::ArrowUp, true).0 == config,
{
}

/// Pressing `p` (or `d`) twice gives the settings back.
pub proof fn lemma_toggle_twice_restores(config: PaintConfig, s: String)
    requires
        is_letter(s@, 'p', 'P') || is_letter(s@, 'd', 'D'),
    ensures
        key_outcome(
            key_outcome(config, Key::Character(s), true).0,
            Key::Character(s),
            true,
        ).0 == config,
{
}

/// Only Escape ends the program.
pub proof fn lemma_only_escape_exits(config: PaintConfig, key: Key, pressed: bool)
    ensures
        key_outcome(config, key, pressed).1 == KeyAction::Exit <==> pressed && key is Escape,
{
}

/// The text is exactly `lower` or `upper`.
fn is_letter_exec(s: &String, lower: char, upper: char) -> (b: bool)
    ensures
        b == is_letter(s@, lower, upper),
{
    let t = s.as_str();
    if t.unicode_len() != 1 {
        assert(s@ != seq![lower] && s@ != seq![upper]);
        return false;
    }
    let ch = t.get_char(0);
    if ch == lower {
        assert(s@ =~= seq![lower]);
        true
    } else if ch == upper {
        assert(s@ =~= seq![upper]);
        true
    } else {
        false
    }
}

/// Applies a key event to the settings and says whether to keep running.
pub fn handle_key(config: &mut PaintConfig, key: &Key, pressed: bool) -> (action: KeyAction)
    requires
        pressed && key is ArrowUp ==> old(config).downscale_factor < u32::MAX,
    ensures
        (*final(config), action) == key_outcome(*old(config), *key, pressed),
{
    if !pressed {
        return KeyAction::Continue;
    }
    match key {
        Key::ArrowUp => {
            let up = config.downscale_factor + 1;
            config.downscale_factor = if up < MAX_PIXEL_SIZE {
                up
            } else {
                MAX_PIXEL_SIZE
            };
            KeyAction::Continue
        },
        Key::ArrowDown => {
            let down = if config.downscale_factor > 0 {
                config.downscale_factor - 1
            } else {
                0
            };
            config.downscale_factor = if down > 1 {
                down
            } else {
                1
            };
            KeyAction::Continue
        },
        Key::Character(s) => {
            if is_letter_exec(s, 'p', 'P') {
                config.extended_palette = !config.extended_palette;
            } else if is_letter_exec(s, 'd', 'D') {
                config.dithering = !config.dithering;
            }
            KeyAction::Continue
        },
        Key::Escape => KeyAction::Exit,
        Key::Other => KeyAction::Continue,
    }
}

/// Channel `c` of pixel `(x, y)` of an RGB frame with alpha added: the
/// frame's colour, fully opaque.
pub open spec fn opaque_chan(width: nat, rgb: Seq<u8>, x: int, y: int, c: int) -> u8 {
    if c == 3 {
        255
    } else {
        rgb[(y * width + x) * 3 + c]
    }
}

/// The opaque RGBA image of a row-major RGB frame.
pub open spec fn opaque_rgba(width: nat, height: nat, rgb: Seq<u8>) -> Raster {
    raster_from(width, height, |x: int, y: int, c: int| opaque_chan(width, rgb, x, y, c))
}

/// Turns a row-major RGB camera frame of `width` x `height` pixels (the first
/// `width * height * 3` bytes of `rgb`) into an opaque RGBA image.
pub fn rgb_frame_to_rgba(width: u32, height: u32, rgb: &[u8]) -> (img: RgbaImage)
    requires
        rgb@.len() >= width * height * 3,
        width * height * 4 <= isize::MAX,
    ensures
        img.wf(),
        img@ == opaque_rgba(width as nat, height as nat, rgb@),
{
    let ghost f = |x: int, y: int, c: int| opaque_chan(width as nat, rgb@, x, y, c);
    let mut out: Vec<u8> = Vec::new();
    let mut y: u32 = 0;
    while y < height
        invariant
            rgb@.len() >= width * height * 3,
            width * height * 4 <= isize::MAX,
            f == (|x: int, y: int, c: int| opaque_chan(width as nat, rgb@, x, y, c)),
            y <= height,
            out@.len() == y * width * 4,
            forall|k: int|
                0 <= k < out@.len() ==> out@[k] == raster_from(width as nat, height as nat, f).data[k],
        decreases height - y,
    {
        let mut x: u32 = 0;
        while x < width
            invariant
                rgb@.len() >= width * height * 3,
                width * height * 4 <= isize::MAX,
                f == (|x: int, y: int, c: int| opaque_chan(width as nat, rgb@, x, y, c)),
                y < height,
                x <= width,
                out@.len() == (y * width + x) * 4,
                forall|k: int|
                    0 <= k < out@.len() ==> out@[k] == raster_from(width as nat, height as nat, f).data[k],
            decreases width - x,
        {
            proof {
                lemma_byte_index_bounds(width as nat, height as nat, x as int, y as int, 0);
                lemma_raster_from_chan(width as nat, height as nat, f, x as int, y as int, 0);
                lemma_raster_from_chan(width as nat, height as nat, f, x as int, y as int, 1);
                lemma_raster_from_chan(width as nat, height as nat, f, x as int, y as int, 2);
                lemma_raster_from_chan(width as nat, height as nat, f, x as int, y as int, 3);
            }
            let base = ((y as usize) * (width as usize) + (x as usize)) * 3;
            out.push(rgb[base]);
            out.push(rgb[base + 1]);
            out.push(rgb[base + 2]);
            out.push(255);
            x += 1;
        }
        proof {
            lemma_next_row(width as nat, y as int);
        }
        y += 1;
    }
    assert((height as int) * (width as int) == (width as int) * (height as int)) by (nonlinear_arith);
    assert(out@ =~= raster_from(width as nat, height as nat, f).data);
    RgbaImage::from_parts(width, height, out)
}

/// Number of frame-buffer columns that receive image pixels.
pub open spec fn blit_cols(fb_width: nat, img: Raster) -> nat {
    if fb_width < img.width { fb_width } else { img.width }
}

/// Number of frame-buffer rows that receive image pixels.
pub open spec fn blit_rows(fb_height: nat, img: Raster) -> nat {
    if fb_height < img.height { fb_height } else { img.height }
}

/// Byte `k` of a frame buffer `fb_width` pixels wide, after the image has been
/// copied into its top-left corner. The byte is channel `k % 4` of pixel
/// `(k / 4 % fb_width, k / 4 / fb_width)`; a pixel that both the frame buffer
/// and the image have takes the image's colour, opaque; every other byte is
/// left as it was.
pub open spec fn blit_byte(frame: Seq<u8>, fb_width: nat, fb_height: nat, img: Raster, k: int) -> u8 {
    let p = k / 4;
    let x = p % (fb_width as int);
    let y = p / (fb_width as int);
    let c = k % 4;
    if fb_width > 0 && y < fb_height && img.in_bounds(x, y) {
        if c == 3 {
            255
        } else {
            img.chan(x, y, c)
        }
    } else {
        frame[k]
    }
}

/// The frame buffer after the image has been copied into its top-left corner.
pub open spec fn blitted(frame: Seq<u8>, fb_width: nat, fb_height: nat, img: Raster) -> Seq<u8> {
    Seq::new(frame.len(), |k: int| blit_byte(frame, fb_width, fb_height, img, k))
}

/// The bytes that the copy writes lie in a frame of `frame_len` bytes, and
/// their indices fit in a `u32`: the last copied pixel ends within both.
pub open spec fn blit_fits(frame_len: nat, fb_width: nat, fb_height: nat, img: Raster) -> bool {
    let rows = blit_rows(fb_height, img);
    let cols = blit_cols(fb_width, img);
    rows == 0 || cols == 0 || {
        &&& ((rows - 1) * fb_width + cols) * 4 <= frame_len
        &&& ((rows - 1) * fb_width + cols) * 4 <= 0x1_0000_0000
    }
}

/// Byte `k` belongs to a pixel that the copy has reached after rows `0..y`
/// and, in row `y`, columns `0..x`, of the first `cols` columns.
spec fn copied_before(fb_width: nat, cols: int, y: int, x: int, k: int) -> bool {
    let p = k / 4;
    let xx = p % (fb_width as int);
    let yy = p / (fb_width as int);
    cols > 0 && ((yy < y && xx < cols) || (yy == y && xx < x))
}

/// Position of byte `k` in a frame buffer `fb_width` pixels wide.
proof fn lemma_frame_position(fb_width: nat, k: int)
    requires
        fb_width > 0,
        k >= 0,
    ensures
        0 <= (k / 4) % (fb_width as int) < fb_width,
        0 <= (k / 4) / (fb_width as int),
        0 <= k % 4 < 4,
        k == byte_index(fb_width, (k / 4) % (fb_width as int), (k / 4) / (fb_width as int), k % 4),
{
    let p = k / 4;
    vstd::arithmetic::div_mod::lemma_fundamental_div_mod(k, 4);
    vstd::arithmetic::div_mod::lemma_fundamental_div_mod(p, fb_width as int);
    vstd::arithmetic::div_mod::lemma_mod_pos_bound(k, 4);
    vstd::arithmetic::div_mod::lemma_mod_pos_bound(p, fb_width as int);
    vstd::arithmetic::div_mod::lemma_div_pos_is_pos(k, 4);
    vstd::arithmetic::div_mod::lemma_div_pos_is_pos(p, fb_width as int);
    assert(p == (fb_width as int) * (p / (fb_width as int)) + p % (fb_width as int));
    assert((p / (fb_width as int)) * fb_width == (fb_width as int) * (p / (fb_width as int)))
        by (nonlinear_arith);
}

/// Copies the image into the top-left corner of an RGBA frame buffer
/// `fb_width` pixels wide and `fb_height` pixels high, as far as both extend,
/// making the copied pixels opaque; every other byte of `frame` is left as it
/// was.
pub fn blit_to_frame(frame: &mut [u8], fb_width: u32, fb_height: u32, img: &RgbaImage)
    requires
        img.wf(),
        blit_fits(old(frame)@.len(), fb_width as nat, fb_height as nat, img@),
    ensures
        final(frame)@ == blitted(old(frame)@, fb_width as nat, fb_height as nat, img@),
{
    let ghost orig = frame@;
    let ghost src = img@;
    let ghost fw = fb_width as nat;
    let (w, h) = img.dimensions();
    let cols = if fb_width < w {
        fb_width
    } else {
        w
    };
    let rows = if fb_height < h {
        fb_height
    } else {
        h
    };
    let mut y: u32 = 0;
    while y < rows
        invariant
            img.wf(),
            img@ == src,
            w == src.width,
            h == src.height,
            fw == fb_width,
            cols == blit_cols(fw, src),
            rows == blit_rows(fb_height as nat, src),
            blit_fits(orig.len(), fw, fb_height as nat, src),
            y <= rows,
            frame@.len() == orig.len(),
            forall|k: int|
                0 <= k < orig.len() ==> #[trigger] frame@[k] == if copied_before(
                    fw,
                    cols as int,
                    y as int,
                    0,
                    k,
                ) {
                    blit_byte(orig, fw, fb_height as nat, src, k)
                } else {
                    orig[k]
                },
        decreases rows - y,
    {
        let mut x: u32 = 0;
        while x < cols
            invariant
                img.wf(),
                img@ == src,
                w == src.width,
                h == src.height,
                fw == fb_width,
                cols == blit_cols(fw, src),
                rows == blit_rows(fb_height as nat, src),
                blit_fits(orig.len(), fw, fb_height as nat, src),
                y < rows,
                x <= cols,
                frame@.len() == orig.len(),
                forall|k: int|
                    0 <= k < orig.len() ==> #[trigger] frame@[k] == if copied_before(
                        fw,
                        cols as int,
                        y as int,
                        x as int,
                        k,
                    ) {
                        blit_byte(orig, fw, fb_height as nat, src, k)
                    } else {
                        orig[k]
                    },
            decreases cols - x,
        {
            proof {
                assert(y * fw + x + 1 <= (rows - 1) * fw + cols) by (nonlinear_arith)
                    requires
                        y < rows,
                        x < cols,
                        cols <= fw,
                ;
            }
            let base = ((y as usize) * (fb_width as usize) + (x as usize)) * 4;
            let p = img.get_pixel(x, y);
            let ghost before = frame@;
            frame[base] = p.0[0];
            frame[base + 1] = p.0[1];
            frame[base + 2] = p.0[2];
            frame[base + 3] = 255;
            proof {
                assert forall|k: int| 0 <= k < orig.len() implies #[trigger] frame@[k] == if copied_before(
                    fw,
                    cols as int,
                    y as int,
                    x + 1,
                    k,
                ) {
                    blit_byte(orig, fw, fb_height as nat, src, k)
                } else {
                    orig[k]
                } by {
                    lemma_frame_position(fw, k);
                    let q = k / 4;
                    let xx = q % (fw as int);
                    let yy = q / (fw as int);
                    let c = k % 4;
                    if base <= k < base + 4 {
                        lemma_byte_index_decompose(fw, x as int, y as int, k - base);
                        assert(k == byte_index(fw, x as int, y as int, k - base));
                        assert(xx == x && yy == y && c == k - base);
                    } else {
                        assert(frame@[k] == before[k]);
                        if xx == x && yy == y {
                            assert(k == byte_index(fw, x as int, y as int, c));
                        }
                    }
                }
            }
            x += 1;
        }
        proof {
            assert forall|k: int| 0 <= k < orig.len() implies #[trigger] frame@[k] == if copied_before(
                fw,
                cols as int,
                y + 1,
                0,
                k,
            ) {
                blit_byte(orig, fw, fb_height as nat, src, k)
            } else {
                orig[k]
            } by {
                if cols > 0 {
                    lemma_frame_position(fw, k);
                }
            }
        }
        y += 1;
    }
    proof {
        assert forall|k: int| 0 <= k < orig.len() implies #[trigger] frame@[k] == blit_byte(
            orig,
            fw,
            fb_height as nat,
            src,
            k,
        ) by {
            if fw > 0 {
                lemma_frame_position(fw, k);
            }
        }
        assert(frame@ =~= blitted(orig, fw, fb_height as nat, src));
    }
}

} // verus!
