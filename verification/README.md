# paintify

Turns an image or a webcam feed into a Windows 95 MS Paint drawing:

```
photo → nearest-neighbour downscale → Kuwahara blobs → 16/28-colour palette → pencil outlines → nearest-neighbour upscale
```

## Layout

- `src/` — the verified library (Verus).
  - `raster.rs`: the `Rgba` pixel, the `Raster` model and the `RgbaImage` buffer.
  - `palette.rs`: the MS Paint palettes, `closest_color`, `quantize_colors`.
  - `kuwahara.rs`: the Kuwahara filter, with exact integer variances, for any
    radius.
  - `edges.rs`: Sobel edge mask and the outline overlay.
  - `resample.rs`, `codec.rs`: the calls into the `image` crate (resizing,
    decoding, PNG encoding), each behind a small trusted wrapper.
  - `config.rs`, `pipeline.rs`: `PaintConfig` and the pipeline (`paintify`,
    and the byte-level entry points used by the web build).
  - `webcam.rs`: keyboard controls and frame conversions of the webcam view.
- `app/` — the webcam program (camera, window, event loop), the WebAssembly
  exports, and Bayer ordered dithering (floating point), which the webcam runs
  between the library's `smooth_small` and `finish_painting` when dithering is
  on.
- `tests/` — tests of the library.
