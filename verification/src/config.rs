//! Settings of the paint pipeline.
use vstd::prelude::*;

verus! {

/// How an image is turned into a paint drawing.
pub struct PaintConfig {
    /// Each side of the image is divided by this before filtering.
    pub downscale_factor: u32,
    /// Use the 28-colour palette in place of the classic 16 colours.
    pub extended_palette: bool,
    /// Ask for ordered dithering in place of plain quantization.
    pub dithering: bool,
    /// Scale the result back up to the size of the input.
    pub preserve_aspect: bool,
    /// Apply Kuwahara filter radius (1–5). Merges similar colors into solid
    /// "brush stroke" blobs. None = disabled. Default: None.
    pub kuwahara_radius: Option<u32>,
    /// Overlay hard black edges (like MS Paint pencil outlines). Default: false.
    pub edge_overlay: bool,
}

/// The default settings: 4x downscale, classic palette, no dithering, result
/// scaled back to the input size, no Kuwahara filter, no outlines.
pub open spec fn default_config() -> PaintConfig {
    PaintConfig {
        downscale_factor: 4,
        extended_palette: false,
        dithering: false,
        preserve_aspect: true,
        kuwahara_radius: None,
        edge_overlay: false,
    }
}

impl Default for PaintConfig {
    fn default() -> (c: Self)
        ensures
            c == default_config(),
    {
        PaintConfig {
            downscale_factor: 4,
            extended_palette: false,
            dithering: false,
            preserve_aspect: true,
            kuwahara_radius: None,
            edge_overlay: false,
        }
    }
}

impl PaintConfig {
    /// The default settings.
    pub fn new() -> (c: Self)
        ensures
            c == default_config(),
    {
        Self::default()
    }

    /// Sets the downscale factor.
    pub fn chunky(self, factor: u32) -> (c: Self)
        ensures
            c == (PaintConfig { downscale_factor: factor, ..self }),
    {
        let mut c = self;
        c.downscale_factor = factor;
        c
    }

    /// Chooses the 28-colour palette (`true`) or the classic one (`false`).
    pub fn extended_palette(self, yes: bool) -> (c: Self)
        ensures
            c == (PaintConfig { extended_palette: yes, ..self }),
    {
        let mut c = self;
        c.extended_palette = yes;
        c
    }

    /// Turns dithering on or off.
    pub fn with_dithering(self, yes: bool) -> (c: Self)
        ensures
            c == (PaintConfig { dithering: yes, ..self }),
    {
        let mut c = self;
        c.dithering = yes;
        c
    }

    /// Enables the Kuwahara filter with the given radius; a radius of 0 disables it.
    pub fn with_kuwahara(self, radius: u32) -> (c: Self)
        ensures
            c == (PaintConfig {
                kuwahara_radius: if radius > 0 {
                    Some(radius)
                } else {
                    None
                },
                ..self
            }),
    {
        let mut c = self;
        c.kuwahara_radius = if radius > 0 {
            Some(radius)
        } else {
            None
        };
        c
    }

    /// Turns the pencil outline overlay on or off.
    pub fn with_edges(self, yes: bool) -> (c: Self)
        ensures
            c == (PaintConfig { edge_overlay: yes, ..self }),
    {
        let mut c = self;
        c.edge_overlay = yes;
        c
    }
}

} // verus!
