//! Settings of the fusion stages.

use vstd::prelude::*;

verus! {

/// Thresholds and weights; shares and weights are in millionths.
#[derive(Debug, Clone, Copy, PartialEq, Eq, Structural)]
pub struct FusionConfig {
    pub minimum_line_coverage: u32,
    pub center_minimum_line_coverage: u32,
    pub assignment_coverage_weight: u32,
    pub assignment_center_weight: u32,
    pub assignment_baseline_weight: u32,
    pub assignment_confidence_weight: u32,
    pub assignment_specificity_weight: u32,
    /// Difference of font sizes below which two runs are set alike.
    pub estimated_font_size_tolerance: i32,
}

impl FusionConfig {
    /// The settings used where the caller states none.
    pub open spec fn standard() -> FusionConfig {
        FusionConfig {
            minimum_line_coverage: 300_000,
            center_minimum_line_coverage: 100_000,
            assignment_coverage_weight: 550_000,
            assignment_center_weight: 200_000,
            assignment_baseline_weight: 100_000,
            assignment_confidence_weight: 100_000,
            assignment_specificity_weight: 50_000,
            estimated_font_size_tolerance: 5_000,
        }
    }

    /// The allowed difference of font sizes: the configured one, at least half a point.
    pub open spec fn size_tolerance(self) -> int {
        if self.estimated_font_size_tolerance > 5_000 {
            self.estimated_font_size_tolerance as int
        } else {
            5_000
        }
    }

    /// The allowed difference of font sizes: the configured one, at least half a point.
    pub fn font_tolerance(&self) -> (tolerance: i64)
        ensures
            tolerance == self.size_tolerance(),
            5_000 <= tolerance <= 0x7FFF_FFFF,
    {
        if self.estimated_font_size_tolerance > 5_000 {
            self.estimated_font_size_tolerance as i64
        } else {
            5_000
        }
    }
}

impl Default for FusionConfig {
    fn default() -> (config: FusionConfig)
        ensures
            config == FusionConfig::standard(),
    {
        FusionConfig {
            minimum_line_coverage: 300_000,
            center_minimum_line_coverage: 100_000,
            assignment_coverage_weight: 550_000,
            assignment_center_weight: 200_000,
            assignment_baseline_weight: 100_000,
            assignment_confidence_weight: 100_000,
            assignment_specificity_weight: 50_000,
            estimated_font_size_tolerance: 5_000,
        }
    }
}

} // verus!
