//! Turns images into Windows 95 MS Paint drawings: nearest-neighbour
//! downscale, optional Kuwahara smoothing, palette quantization, optional
//! pencil outlines, nearest-neighbour upscale.
use vstd::prelude::*;

pub mod config;
pub mod raster;
pub mod palette;
pub mod kuwahara;
pub mod edges;
pub mod resample;
pub mod codec;
pub mod pipeline;
pub mod webcam;

pub use raster::{Raster, Rgba, RgbaImage};
pub use config::PaintConfig;
pub use edges::{overlay_edges, sobel_edges};
pub use kuwahara::kuwahara_filter;
pub use pipeline::{
    finish_painting, paintify, paintify_chunky, paintify_default, paintify_default_js, paintify_js,
    sizes_fit_exec, smooth_small,
};
pub use palette::{closest_color, quantize_colors, MS_PAINT_EXTENDED, MS_PAINT_PALETTE};

