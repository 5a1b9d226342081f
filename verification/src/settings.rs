//! Options of the grid recovery and the record it reports.

use vstd::prelude::*;

verus! {

/// How eagerly the background is removed before the grid is measured.
#[derive(Debug, Clone, Copy, PartialEq, Eq, Structural)]
pub enum BgRemovalMode {
    /// Protects content that touches the border and widens the background
    /// region by one pixel.
    Conservative,
    /// Protects nothing and widens the background region by two pixels.
    Aggressive,
    /// Leaves the image as it is.
    Off,
}

/// Options of the grid recovery.
#[derive(Debug, Clone, Copy)]
pub struct DownscalerSettings {
    pub bg_removal_mode: BgRemovalMode,
    /// Largest colour distance to a background colour in the interior.
    pub bg_tolerance: u8,
    /// Largest colour distance to a background colour near the border.
    pub bg_edge_tolerance: u8,
    /// Keep dark pixels of the background region opaque.
    pub preserve_dark_lines: bool,
    /// A pixel is dark when its three channels sum to less than this.
    pub dark_line_threshold: u16,
    /// Trim transparent borders before the grid is measured.
    pub auto_trim: bool,
    /// Accepted for callers that refine the scale by fractions; the integer
    /// search does not read it.
    pub enable_fine_tune: bool,
    /// Pad the result to a multiple of `canvas_multiple`.
    pub pad_canvas: bool,
    pub canvas_multiple: u32,
}

impl DownscalerSettings {
    /// Conservative background removal with tolerances 15 and 30, dark
    /// lines below 100 kept, trimming on, padding to multiples of 16.
    pub open spec fn standard() -> DownscalerSettings {
        DownscalerSettings {
            bg_removal_mode: BgRemovalMode::Conservative,
            bg_tolerance: 15,
            bg_edge_tolerance: 30,
            preserve_dark_lines: true,
            dark_line_threshold: 100,
            auto_trim: true,
            enable_fine_tune: true,
            pad_canvas: true,
            canvas_multiple: 16,
        }
    }
}

impl Default for DownscalerSettings {
    fn default() -> (settings: Self)
        ensures
            settings == DownscalerSettings::standard(),
    {
        DownscalerSettings {
            bg_removal_mode: BgRemovalMode::Conservative,
            bg_tolerance: 15,
            bg_edge_tolerance: 30,
            preserve_dark_lines: true,
            dark_line_threshold: 100,
            auto_trim: true,
            enable_fine_tune: true,
            pad_canvas: true,
            canvas_multiple: 16,
        }
    }
}

/// What one run of the recovery reports.
#[derive(Debug, Clone, Copy)]
pub struct DownscaleResult {
    /// Width and height of the input.
    pub original_size: (u32, u32),
    /// Width and height of the output.
    pub final_size: (u32, u32),
    /// Edge length of one grid cell in input pixels.
    pub scale_factor: u32,
    /// Whether the frequency analysis gave a period.
    pub grid_detected: bool,
}

} // verus!
