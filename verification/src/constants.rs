//! Tuning constants of the capture loop and the analyses.
use vstd::prelude::*;

verus! {

// --- Capture loop ---
pub const CAPTURE_INTERVAL_MS: u64 = 250;

pub const HOUSED_INTERPOLATION_TIMEOUT_MS: u64 = 1000;

pub const QUEUED_INTERPOLATION_TIMEOUT_MS: u64 = 2000;

// --- Anchor detection ---
/// An anchor pixel is red: red at least this, green and blue at most these.
pub const RED_R_MIN: u8 = 160;

pub const RED_G_MAX: u8 = 70;

pub const RED_B_MAX: u8 = 70;

/// Red pixels the 10x10 box ending at an anchor candidate must hold.
pub const RED_PIXEL_MIN_COUNT: usize = 12;

// --- Output / cleanup filter ---
pub const OUT_GREY_TOLERANCE: i16 = 30;

pub const OUT_BRIGHTNESS_THRESHOLD: u8 = 5;

pub const OUT_OVERLAY_BRIGHTNESS_THRESHOLD: u8 = 30;

// --- Segmentation filter ---
pub const SEG_GREY_TOLERANCE: i16 = 30;

pub const SEG_BRIGHTNESS_THRESHOLD: u8 = 100;

pub const SEG_REQUIRED_BRIGHTNESS: u8 = 230;

// --- Yellow detection ---
pub const YELLOW_MIN_BRIGHTNESS: u8 = 100;

pub const YELLOW_BLUE_MARGIN: i16 = 30;

pub const YELLOW_RG_SIMILARITY: i16 = 50;

// --- Floating resources analysis ---
/// A run above threshold shorter than this is not flagged.
pub const FLOATING_MIN_DURATION_MS: u64 = 30_000;

/// Duration before a major spend event (age-up click, castle placement) during which
/// the relevant resource accumulation is not flagged as floating (save-up window suppression).
pub const SAVE_UP_WINDOW_MS: u64 = 60_000;

// --- Smoothing ---
pub const SMOOTH_VILS_MIN_SPIKE: i32 = 2;

pub const SMOOTH_VILS_MAX_DURATION_MS: u64 = 2000;

/// Per-resource floating thresholds of one game age.
#[derive(Debug, Clone, Copy, PartialEq, Eq)]
pub struct ResourceThresholds {
    pub food: u32,
    pub wood: u32,
    pub gold: u32,
    pub stone: u32,
}

/// The floating thresholds of the age with index `age_index` (Dark, Feudal, Castle,
/// Imperial Age in that order).
pub open spec fn thresholds_spec(age_index: int) -> ResourceThresholds {
    if age_index == 0 {
        ResourceThresholds { food: 200, wood: 200, gold: 100, stone: 200 }
    } else if age_index == 1 {
        ResourceThresholds { food: 500, wood: 500, gold: 300, stone: 300 }
    } else if age_index == 2 {
        ResourceThresholds { food: 800, wood: 800, gold: 500, stone: 500 }
    } else {
        ResourceThresholds { food: 1000, wood: 1000, gold: 1000, stone: 1000 }
    }
}

pub fn floating_thresholds(age_index: usize) -> (t: ResourceThresholds)
    requires
        age_index < 4,
    ensures
        t == thresholds_spec(age_index as int),
{
    if age_index == 0 {
        ResourceThresholds { food: 200, wood: 200, gold: 100, stone: 200 }
    } else if age_index == 1 {
        ResourceThresholds { food: 500, wood: 500, gold: 300, stone: 300 }
    } else if age_index == 2 {
        ResourceThresholds { food: 800, wood: 800, gold: 500, stone: 500 }
    } else {
        ResourceThresholds { food: 1000, wood: 1000, gold: 1000, stone: 1000 }
    }
}

} // verus!
