use paintify::{
    closest_color, kuwahara_filter, paintify, paintify_default, sobel_edges, PaintConfig, Rgba,
    RgbaImage, MS_PAINT_EXTENDED, MS_PAINT_PALETTE,
};

fn test_img() -> RgbaImage {
    RgbaImage::new(64, 64)
}

#[test]
fn test_paintify_preserves_dimensions() {
    let img = test_img();
    let result = paintify_default(&img);
    assert_eq!(result.dimensions(), (64, 64));
}

#[test]
fn test_paintify_no_preserve() {
    let img = test_img();
    let mut config = PaintConfig::default();
    config.preserve_aspect = false;
    let result = paintify(&img, &config);
    assert_eq!(result.dimensions(), (16, 16));
}

#[test]
fn test_closest_color_black() {
    let px = Rgba([0, 0, 0, 255]);
    let result = closest_color(&px, &MS_PAINT_PALETTE);
    assert_eq!(&result.0[..3], &[0, 0, 0]);
}

#[test]
fn test_closest_color_white() {
    let px = Rgba([255, 255, 255, 255]);
    let result = closest_color(&px, &MS_PAINT_PALETTE);
    assert_eq!(&result.0[..3], &[255, 255, 255]);
}

#[test]
fn test_extended_palette_has_28_colors() {
    assert_eq!(MS_PAINT_EXTENDED.len(), 28);
}

#[test]
fn test_kuwahara_preserves_dimensions() {
    let mut img_buf = RgbaImage::new(32, 32);
    img_buf.put_pixel(0, 0, Rgba([255, 0, 0, 255]));
    let result = kuwahara_filter(&img_buf, 2);
    assert_eq!(result.dimensions(), (32, 32));
}

#[test]
fn test_sobel_preserves_dimensions() {
    let img_buf = RgbaImage::new(16, 16);
    let edges = sobel_edges(&img_buf);
    assert_eq!(edges.dimensions(), (16, 16));
}
