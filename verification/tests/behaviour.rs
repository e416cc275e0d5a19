use paintify::{
    closest_color, finish_painting, kuwahara_filter, overlay_edges, paintify, paintify_chunky,
    paintify_default, paintify_default_js, paintify_js, quantize_colors, sizes_fit_exec, smooth_small, sobel_edges,
    PaintConfig, Rgba, RgbaImage, MS_PAINT_EXTENDED, MS_PAINT_PALETTE,
};
use paintify::webcam::{blit_to_frame, handle_key, rgb_frame_to_rgba, Key, KeyAction};

fn image_from(width: u32, height: u32, pixels: &[[u8; 4]]) -> RgbaImage {
    let mut data = Vec::new();
    for p in pixels {
        data.extend_from_slice(p);
    }
    RgbaImage::from_rgba_bytes(width, height, data).unwrap()
}

fn pixels_of(img: &RgbaImage) -> Vec<[u8; 4]> {
    let (w, h) = img.dimensions();
    let mut out = Vec::new();
    for y in 0..h {
        for x in 0..w {
            out.push(img.get_pixel(x, y).0);
        }
    }
    out
}

fn png_of(width: u32, height: u32, color: [u8; 4]) -> Vec<u8> {
    let img = image::RgbaImage::from_pixel(width, height, image::Rgba(color));
    let mut buffer = std::io::Cursor::new(Vec::new());
    image::DynamicImage::ImageRgba8(img)
        .write_to(&mut buffer, image::ImageFormat::Png)
        .unwrap();
    buffer.into_inner()
}

#[test]
fn closest_color_keeps_alpha_and_picks_nearest() {
    let r = closest_color(&Rgba([250, 5, 5, 7]), &MS_PAINT_PALETTE);
    assert_eq!(r.0, [255, 0, 0, 7]);
}

#[test]
fn closest_color_tie_goes_to_first_entry() {
    // (64, 64, 64) is as far from black as from the gray (128, 128, 128).
    let r = closest_color(&Rgba([64, 64, 64, 255]), &MS_PAINT_PALETTE);
    assert_eq!(r.0, [0, 0, 0, 255]);
    // The extended palette holds (64, 64, 64) itself.
    let r = closest_color(&Rgba([64, 64, 64, 255]), &MS_PAINT_EXTENDED);
    assert_eq!(r.0, [64, 64, 64, 255]);
}

#[test]
fn every_palette_color_maps_to_itself() {
    for col in MS_PAINT_PALETTE.iter().chain(MS_PAINT_EXTENDED.iter()) {
        let r = closest_color(&Rgba([col[0], col[1], col[2], 9]), &MS_PAINT_EXTENDED);
        assert_eq!(r.0, [col[0], col[1], col[2], 9]);
    }
}

#[test]
fn quantize_twice_is_quantize_once() {
    let mut img = image_from(
        3,
        2,
        &[[1, 2, 3, 4], [200, 100, 50, 255], [90, 90, 200, 0], [17, 250, 16, 1], [128, 64, 1, 2], [255, 255, 250, 3]],
    );
    quantize_colors(&mut img, &MS_PAINT_PALETTE);
    let once = img.as_raw().clone();
    quantize_colors(&mut img, &MS_PAINT_PALETTE);
    assert_eq!(img.as_raw(), &once);
    assert_eq!(pixels_of(&img)[1], [128, 128, 0, 255]);
}

#[test]
fn kuwahara_takes_mean_of_least_varied_quadrant() {
    let img = image_from(
        2,
        2,
        &[[0, 0, 0, 255], [10, 10, 10, 200], [20, 20, 20, 100], [30, 30, 30, 50]],
    );
    let out = kuwahara_filter(&img, 1);
    assert_eq!(
        pixels_of(&out),
        vec![[5, 5, 5, 255], [5, 5, 5, 200], [25, 25, 25, 100], [25, 25, 25, 50]]
    );
}

#[test]
fn kuwahara_keeps_flat_image() {
    let img = image_from(3, 1, &[[7, 8, 9, 1], [7, 8, 9, 2], [7, 8, 9, 3]]);
    let out = kuwahara_filter(&img, 2);
    assert_eq!(out.as_raw(), img.as_raw());
}

#[test]
fn kuwahara_single_pixel_keeps_its_colour() {
    let img = image_from(1, 1, &[[200, 100, 50, 128]]);
    let out = kuwahara_filter(&img, 1);
    assert_eq!(pixels_of(&out), vec![[200, 100, 50, 128]]);
}

#[test]
fn kuwahara_radius_zero_keeps_image() {
    let px = [[1, 2, 3, 4], [200, 100, 50, 255], [90, 90, 200, 0], [17, 250, 16, 1]];
    let img = image_from(2, 2, &px);
    let out = kuwahara_filter(&img, 0);
    assert_eq!(out.as_raw(), img.as_raw());
}

#[test]
fn kuwahara_huge_radius_equals_image_sized_radius() {
    let mut px = Vec::new();
    for i in 0..30u32 {
        px.push([(i * 37 % 256) as u8, (i * 11 % 256) as u8, (255 - i * 5) as u8, 9]);
    }
    let img = image_from(6, 5, &px);
    let big = kuwahara_filter(&img, u32::MAX);
    let fitted = kuwahara_filter(&img, 6);
    assert_eq!(big.as_raw(), fitted.as_raw());
}

#[test]
fn kuwahara_stays_within_the_window() {
    let (w, h, r) = (5u32, 4u32, 1i64);
    let mut px = Vec::new();
    for i in 0..(w * h) {
        px.push([(i * 53 % 256) as u8, (i * 97 % 256) as u8, (i * 31 % 256) as u8, 255]);
    }
    let img = image_from(w, h, &px);
    let out = pixels_of(&kuwahara_filter(&img, r as u32));
    for y in 0..h as i64 {
        for x in 0..w as i64 {
            for c in 0..3 {
                let mut lo = 255u8;
                let mut hi = 0u8;
                for b in (y - r).max(0)..=(y + r).min(h as i64 - 1) {
                    for a in (x - r).max(0)..=(x + r).min(w as i64 - 1) {
                        let v = px[(b * w as i64 + a) as usize][c];
                        lo = lo.min(v);
                        hi = hi.max(v);
                    }
                }
                let got = out[(y * w as i64 + x) as usize][c];
                assert!(lo <= got && got <= hi);
            }
        }
    }
}

#[test]
fn sobel_marks_a_vertical_step() {
    let b = [0, 0, 0, 255];
    let w = [255, 255, 255, 255];
    let img = image_from(4, 3, &[b, b, w, w, b, b, w, w, b, b, w, w]);
    let edges = sobel_edges(&img);
    let z = [0, 0, 0, 0];
    let e = [0, 0, 0, 255];
    assert_eq!(pixels_of(&edges), vec![z, z, z, z, z, e, e, z, z, z, z, z]);
}

#[test]
fn sobel_flat_image_is_white_inside() {
    let c = [12, 34, 56, 78];
    let img = image_from(3, 3, &[c; 9]);
    let edges = sobel_edges(&img);
    let px = pixels_of(&edges);
    assert_eq!(px[4], [255, 255, 255, 255]);
    for (i, p) in px.iter().enumerate() {
        if i != 4 {
            assert_eq!(*p, [0, 0, 0, 0]);
        }
    }
}

#[test]
fn overlay_paints_dark_mask_pixels_black() {
    let mut buf = image_from(2, 1, &[[1, 2, 3, 4], [5, 6, 7, 8]]);
    let mask = image_from(1, 1, &[[127, 255, 255, 255]]);
    overlay_edges(&mut buf, &mask);
    assert_eq!(pixels_of(&buf), vec![[0, 0, 0, 255], [5, 6, 7, 8]]);
    let light = image_from(2, 1, &[[128, 0, 0, 0], [200, 0, 0, 0]]);
    overlay_edges(&mut buf, &light);
    assert_eq!(pixels_of(&buf), vec![[0, 0, 0, 255], [5, 6, 7, 8]]);
}

#[test]
fn paintify_flat_red_stays_red() {
    let img = image_from(8, 8, &[[250, 5, 5, 200]; 64]);
    let out = paintify(&img, &PaintConfig::default());
    assert_eq!(out.dimensions(), (8, 8));
    assert!(pixels_of(&out).iter().all(|p| *p == [255, 0, 0, 200]));
}

#[test]
fn paintify_too_small_for_factor_gives_blank_image() {
    let img = image_from(5, 3, &[[250, 5, 5, 200]; 15]);
    let out = paintify(&img, &PaintConfig::default());
    assert_eq!(out.dimensions(), (5, 3));
    assert!(out.as_raw().iter().all(|b| *b == 0));
}

#[test]
fn paintify_factor_one_only_quantizes() {
    let px = [[1, 2, 3, 4], [200, 100, 50, 255], [90, 90, 200, 0], [17, 250, 16, 1]];
    let img = image_from(2, 2, &px);
    let out = paintify_chunky(&img, 1);
    let mut expected = image_from(2, 2, &px);
    quantize_colors(&mut expected, &MS_PAINT_PALETTE);
    assert_eq!(out.as_raw(), expected.as_raw());
}

#[test]
fn paintify_uses_only_palette_colors() {
    let mut px = Vec::new();
    for i in 0..64u32 {
        px.push([(i * 4) as u8, (255 - i * 3) as u8, (i * 7 % 256) as u8, 255]);
    }
    let img = image_from(8, 8, &px);
    let config = PaintConfig::new()
        .chunky(2)
        .extended_palette(true)
        .with_kuwahara(1)
        .with_edges(true);
    let out = paintify(&img, &config);
    assert_eq!(out.dimensions(), (8, 8));
    for p in pixels_of(&out) {
        assert!(MS_PAINT_EXTENDED.iter().any(|c| c[..] == p[..3]));
    }
}

#[test]
fn paintify_is_its_stages_in_order() {
    let mut px = Vec::new();
    for i in 0..80u32 {
        px.push([(i * 13 % 256) as u8, (i * 29 % 256) as u8, (200 - i * 2) as u8, 255]);
    }
    let img = image_from(10, 8, &px);
    let config = PaintConfig::new().chunky(2).with_kuwahara(1).with_edges(true);
    let (mut small, edges) = smooth_small(&img, &config);
    assert_eq!(small.dimensions(), (5, 4));
    assert_eq!(edges.as_ref().map(|e| e.dimensions()), Some((5, 4)));
    quantize_colors(&mut small, &MS_PAINT_PALETTE);
    let staged = finish_painting(small, edges, 10, 8, true);
    assert_eq!(staged.as_raw(), paintify(&img, &config).as_raw());
    let (_, no_edges) = smooth_small(&img, &config.with_edges(false));
    assert!(no_edges.is_none());
}

#[test]
fn helpers_are_paintify_with_default_settings() {
    let mut px = Vec::new();
    for i in 0..96u32 {
        px.push([(i * 41 % 256) as u8, (i * 7 % 256) as u8, (i * 19 % 256) as u8, 255]);
    }
    let img = image_from(12, 8, &px);
    let by_default = paintify_default(&img);
    assert_eq!(by_default.as_raw(), paintify(&img, &PaintConfig::default()).as_raw());
    assert_eq!(by_default.as_raw(), paintify_chunky(&img, 4).as_raw());
    let chunky = paintify_chunky(&img, 3);
    assert_eq!(chunky.as_raw(), paintify(&img, &PaintConfig::default().chunky(3)).as_raw());
    assert_eq!(chunky.dimensions(), (12, 8));
}

#[test]
fn config_builders_set_one_field() {
    let c = PaintConfig::new();
    assert_eq!(c.downscale_factor, 4);
    assert!(!c.extended_palette && !c.dithering && c.preserve_aspect && !c.edge_overlay);
    assert_eq!(c.kuwahara_radius, None);
    let c = c.chunky(7).with_kuwahara(3).with_dithering(true);
    assert_eq!(c.downscale_factor, 7);
    assert_eq!(c.kuwahara_radius, Some(3));
    assert!(c.dithering);
    let c = c.with_kuwahara(0);
    assert_eq!(c.kuwahara_radius, None);
}

#[test]
fn paintify_js_round_trip() {
    let png = png_of(8, 8, [250, 5, 5, 255]);
    let out = paintify_js(&png, 4, false);
    let decoded = image::load_from_memory(&out).unwrap().to_rgba8();
    assert_eq!(decoded.dimensions(), (8, 8));
    assert!(decoded.pixels().all(|p| p.0 == [255, 0, 0, 255]));
    let out_default = paintify_default_js(&png);
    assert_eq!(out_default, out);
}

#[test]
fn paintify_js_rejects_garbage() {
    assert!(paintify_js(b"not an image", 4, true).is_empty());
    assert!(paintify_js(b"not an image", 0, false).is_empty());
}

#[test]
fn paintify_js_answers_zero_pixel_size_with_nothing() {
    let png = png_of(4, 4, [0, 0, 255, 255]);
    assert!(paintify_js(&png, 0, false).is_empty());
    let out = paintify_js(&png, 2, false);
    let decoded = image::load_from_memory(&out).unwrap().to_rgba8();
    assert_eq!(decoded.dimensions(), (4, 4));
    assert!(decoded.pixels().all(|p| p.0 == [0, 0, 255, 255]));
}

#[test]
fn sizes_fit_for_ordinary_images() {
    assert!(sizes_fit_exec(1920, 1080, 1, true));
    assert!(sizes_fit_exec(1920, 1080, 3, false));
    assert!(!sizes_fit_exec(u32::MAX, u32::MAX, 1, true));
}

#[test]
fn keys_change_settings() {
    let mut c = PaintConfig::default();
    assert_eq!(handle_key(&mut c, &Key::ArrowUp, true), KeyAction::Continue);
    assert_eq!(c.downscale_factor, 5);
    handle_key(&mut c, &Key::ArrowDown, true);
    assert_eq!(c.downscale_factor, 4);
    handle_key(&mut c, &Key::ArrowUp, false);
    assert_eq!(c.downscale_factor, 4);
    for _ in 0..40 {
        handle_key(&mut c, &Key::ArrowUp, true);
    }
    assert_eq!(c.downscale_factor, 32);
    for _ in 0..40 {
        handle_key(&mut c, &Key::ArrowDown, true);
    }
    assert_eq!(c.downscale_factor, 1);
    handle_key(&mut c, &Key::Character("P".to_string()), true);
    assert!(c.extended_palette);
    handle_key(&mut c, &Key::Character("p".to_string()), true);
    assert!(!c.extended_palette);
    handle_key(&mut c, &Key::Character("d".to_string()), true);
    assert!(c.dithering);
    handle_key(&mut c, &Key::Character("dd".to_string()), true);
    assert!(c.dithering);
    assert_eq!(handle_key(&mut c, &Key::Escape, true), KeyAction::Exit);
    assert_eq!(handle_key(&mut c, &Key::Escape, false), KeyAction::Continue);
}

#[test]
fn camera_frame_becomes_opaque() {
    let img = rgb_frame_to_rgba(2, 1, &[1, 2, 3, 4, 5, 6]);
    assert_eq!(pixels_of(&img), vec![[1, 2, 3, 255], [4, 5, 6, 255]]);
}

#[test]
fn blit_copies_overlap_only() {
    let img = image_from(2, 3, &[[1, 1, 1, 9], [2, 2, 2, 9], [3, 3, 3, 9], [4, 4, 4, 9], [5, 5, 5, 9], [6, 6, 6, 9]]);
    let mut frame = vec![7u8; 3 * 2 * 4];
    blit_to_frame(&mut frame, 3, 2, &img);
    let expected: Vec<u8> = [
        [1, 1, 1, 255], [2, 2, 2, 255], [7, 7, 7, 7],
        [3, 3, 3, 255], [4, 4, 4, 255], [7, 7, 7, 7],
    ]
    .concat();
    assert_eq!(frame, expected);
}

#[test]
fn blit_needs_only_the_bytes_it_writes() {
    let img = image_from(2, 2, &[[1, 2, 3, 4], [5, 6, 7, 8], [9, 10, 11, 12], [13, 14, 15, 16]]);
    // A frame buffer 3 pixels wide and 5 high, of which only the first row and
    // the first two pixels of the second row are present.
    let mut frame = vec![0u8; (3 + 2) * 4];
    blit_to_frame(&mut frame, 3, 5, &img);
    let expected: Vec<u8> = [
        [1, 2, 3, 255], [5, 6, 7, 255], [0, 0, 0, 0],
        [9, 10, 11, 255], [13, 14, 15, 255],
    ]
    .concat();
    assert_eq!(frame, expected);
    let mut longer = vec![42u8; 3 * 5 * 4 + 3];
    blit_to_frame(&mut longer, 3, 5, &img);
    let written: Vec<u8> = [
        [1, 2, 3, 255], [5, 6, 7, 255], [42, 42, 42, 42],
        [9, 10, 11, 255], [13, 14, 15, 255],
    ]
    .concat();
    assert_eq!(&longer[..20], &written[..]);
    assert!(longer[20..].iter().all(|b| *b == 42));
}

#[test]
fn image_access_checks_bounds() {
    let mut img = RgbaImage::new(2, 2);
    assert!(img.as_raw().iter().all(|b| *b == 0));
    img.put_pixel(1, 0, Rgba([9, 8, 7, 6]));
    assert_eq!(img.get_pixel(1, 0).0, [9, 8, 7, 6]);
    assert!(img.get_pixel_checked(2, 0).is_none());
    assert_eq!(img.get_pixel_checked(1, 0).unwrap().0, [9, 8, 7, 6]);
    assert!(RgbaImage::from_rgba_bytes(2, 2, vec![0; 15]).is_none());
    assert_eq!(img.into_raw().len(), 16);
}
