//! Stroke, segment and big segment bands (upper and lower rails) with their four cases
//! and track-following, plus the 2+N markers and the buy/sell retreat filter.

use vstd::prelude::*;

pub mod legs;
pub mod tracking;
pub mod turns;
pub mod compute;
pub mod plus;

pub use crate::guidao::compute::compute_bigseg_bands;
pub use crate::guidao::compute::compute_segment_bands;
pub use crate::guidao::compute::compute_stroke_bands;
pub use crate::guidao::legs::calc_bigseg_lower_band_case1;
pub use crate::guidao::legs::calc_bigseg_lower_band_case2;
pub use crate::guidao::legs::calc_bigseg_upper_band_case1;
pub use crate::guidao::legs::calc_bigseg_upper_band_case2;
pub use crate::guidao::legs::calc_lower_band_case1;
pub use crate::guidao::legs::calc_lower_band_case2;
pub use crate::guidao::legs::calc_seg_lower_band_case1;
pub use crate::guidao::legs::calc_seg_lower_band_case2;
pub use crate::guidao::legs::calc_seg_upper_band_case1;
pub use crate::guidao::legs::calc_seg_upper_band_case2;
pub use crate::guidao::legs::calc_upper_band_case1;
pub use crate::guidao::legs::calc_upper_band_case2;
pub use crate::guidao::plus::apply_sup_retreat_filter;
pub use crate::guidao::plus::detect_bigseg_cf_buy_markers;
pub use crate::guidao::plus::detect_bigseg_cf_sell_markers;
pub use crate::guidao::plus::find_case1_third_seg_bar;
pub use crate::guidao::plus::find_case1_third_up_seg_bar;
pub use crate::guidao::plus::RetreatFilterResult;
pub use crate::guidao::plus::SecondPlusOneMarker;
pub use crate::guidao::tracking::apply_tracking;
pub use crate::guidao::tracking::relocate_band_lift_points;
pub use crate::guidao::turns::calc_bigseg_lower_band_case3;
pub use crate::guidao::turns::calc_bigseg_lower_band_case4;
pub use crate::guidao::turns::calc_bigseg_upper_band_case3;
pub use crate::guidao::turns::calc_bigseg_upper_band_case4;
pub use crate::guidao::turns::calc_lower_band_case3;
pub use crate::guidao::turns::calc_lower_band_case4;
pub use crate::guidao::turns::calc_seg_lower_band_case3;
pub use crate::guidao::turns::calc_seg_lower_band_case4;
pub use crate::guidao::turns::calc_seg_upper_band_case3;
pub use crate::guidao::turns::calc_seg_upper_band_case4;
pub use crate::guidao::turns::calc_upper_band_case3;
pub use crate::guidao::turns::calc_upper_band_case4;
pub use crate::guidao::turns::detect_big_seg_turn_signals;
pub use crate::guidao::turns::detect_big_v_signals;
pub use crate::guidao::turns::detect_segment_turn_signals;
pub use crate::guidao::turns::detect_segment_v_signals;
pub use crate::guidao::turns::detect_turn_signals;
pub use crate::guidao::turns::detect_v_signals;
pub use crate::guidao::turns::BigSegmentTurnSignal;
pub use crate::guidao::turns::SegmentTurnSignal;
pub use crate::guidao::turns::TurnSignal;

verus! {

/// A single band point (upper or lower rail).
#[derive(Debug, Clone, Copy, PartialEq, Eq, Structural)]
pub struct BandPoint {
    pub value: i64,
    pub bar_index: usize,
}

/// A leg (stroke, segment or big segment) reduced to its high, low and anchor bar.
#[derive(Debug, Clone, Copy, PartialEq, Eq, Structural)]
pub struct StrokeForTracking {
    pub high: i64,
    pub low: i64,
    pub bar_index: usize,
}

} // verus!
