//! Chan theory chart structure on integer price ticks: candle merging, fractals, strokes,
//! segments, big and superior segments, pivot zones, buy and sell markers, and the
//! three levels of bands, each with its contract.

use vstd::prelude::*;

pub mod types;
pub mod candles;
pub mod strokes;
pub mod segments;
pub mod markers;
pub mod pipeline;
pub mod zhongshu;
pub mod guidao;
pub mod chart;

pub use crate::types::Fractal;
pub use crate::types::MergedCandle;
pub use crate::types::Stroke;
pub use crate::types::StrokeCases;
pub use crate::types::ChanlunStats;
pub use crate::types::build_strokes;
pub use crate::candles::process_merged_candles;
pub use crate::candles::identify_fractals;
pub use crate::candles::filter_fractals;
pub use crate::strokes::process_strokes_fractals;
pub use crate::strokes::process_strokes_fractals_with_cases;
pub use crate::strokes::check_up_stroke_case4;
pub use crate::strokes::check_down_stroke_case4;
pub use crate::segments::check_up_segment_case2;
pub use crate::segments::check_down_segment_case2;
pub use crate::segments::process_segments;
pub use crate::segments::process_segments_with_cases;
pub use crate::segments::collect_segment_case3_events;
pub use crate::segments::collect_segment_case3_events_with_cases;
pub use crate::segments::process_big_segments;
pub use crate::segments::process_big_segments_with_cases;
pub use crate::segments::collect_superior_case3_events;
pub use crate::segments::collect_superior_case3_events_with_cases;
pub use crate::segments::process_superior_segments;
pub use crate::segments::process_superior_segments_with_cases;
pub use crate::markers::SecondMarker;
pub use crate::markers::resolve_sup_end_point;
pub use crate::markers::detect_second_buy_markers;
pub use crate::markers::detect_second_sell_markers;
pub use crate::pipeline::ChanlunPipeline;

verus! {

} // verus!
