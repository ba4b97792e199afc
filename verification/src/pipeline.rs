use vstd::prelude::*;

use crate::candles::filter_fractals;
use crate::candles::filter_fractals_spec;
use crate::candles::fractals_spec;
use crate::candles::identify_fractals;
use crate::candles::lemma_filtered_in_time_order;
use crate::candles::merged_candles_spec;
use crate::candles::process_merged_candles;
use crate::candles::strictly_sorted_by_bar;
use crate::segments::bigs_in_range;
use crate::segments::lemma_segments_well_formed;
use crate::segments::process_big_segments_with_cases;
use crate::segments::process_segments_with_cases;
use crate::segments::process_superior_segments_with_cases;
use crate::segments::project_big_segments;
use crate::segments::project_segments;
use crate::segments::segments_spec;
use crate::segments::segs_in_range;
use crate::strokes::lemma_stroke_chain_in_time_order;
use crate::strokes::process_strokes_fractals_with_cases;
use crate::strokes::strokes_fractals_spec;
use crate::types::build_strokes;
use crate::types::strokes_of;
use crate::types::ChanlunStats;
use crate::types::Fractal;
use crate::types::MergedCandle;
use crate::types::Stroke;
use crate::types::StrokeCases;

verus! {

/// All stages computed from one bar series.
pub struct ChanlunPipeline {
    pub highs: Vec<i64>,
    pub lows: Vec<i64>,
    pub merged: Vec<MergedCandle>,
    pub valid_fractals: Vec<Fractal>,
    pub final_fractals: Vec<Fractal>,
    pub strokes: Vec<Stroke>,
    pub segments: Vec<(usize, usize, bool)>,
    pub big_segments: Vec<(usize, usize, bool)>,
    pub superior_segments: Vec<(usize, usize, bool)>,
}

/// Minimum bar distance of a standard stroke in the pipeline.
pub const MIN_STROKE_BARS: usize = 4;

impl ChanlunPipeline {
    /// Every stage equals the specification applied to the previous one.
    pub open spec fn computed_from(self, stroke_cases: StrokeCases, levels_cases: StrokeCases) -> bool {
        let merged = merged_candles_spec(self.highs@, self.lows@);
        let valid = filter_fractals_spec(fractals_spec(merged));
        let ff = strokes_fractals_spec(
            valid,
            stroke_cases.case3,
            stroke_cases.case4,
            MIN_STROKE_BARS,
        );
        let strokes = strokes_of(ff);
        let segs = segments_spec(strokes, levels_cases.case3, levels_cases.case4);
        let bigs = segments_spec(
            project_segments(strokes, segs),
            levels_cases.case3,
            levels_cases.case4,
        );
        let sups = segments_spec(
            project_big_segments(strokes, segs, bigs),
            levels_cases.case3,
            levels_cases.case4,
        );
        &&& self.merged@ == merged
        &&& self.valid_fractals@ == valid
        &&& self.final_fractals@ == ff
        &&& self.strokes@ == strokes
        &&& self.segments@ == segs
        &&& self.big_segments@ == bigs
        &&& self.superior_segments@ == sups
    }

    /// Runs the whole pipeline with every case enabled.
    pub fn new(highs: Vec<i64>, lows: Vec<i64>) -> (r: Self)
        requires
            lows.len() >= highs.len(),
        ensures
            r.highs@ == highs@,
            r.lows@ == lows@,
            r.computed_from(
                StrokeCases { case3: true, case4: true },
                StrokeCases { case3: true, case4: true },
            ),
    {
        Self::new_with_cases(highs, lows, StrokeCases::default(), StrokeCases::default())
    }

    /// Runs the pipeline with stroke case switches; the higher levels use every case.
    pub fn new_with_stroke_cases(highs: Vec<i64>, lows: Vec<i64>, cases: StrokeCases) -> (r: Self)
        requires
            lows.len() >= highs.len(),
        ensures
            r.highs@ == highs@,
            r.lows@ == lows@,
            r.computed_from(cases, StrokeCases { case3: true, case4: true }),
    {
        Self::new_with_cases(highs, lows, cases, StrokeCases::default())
    }

    /// Runs the pipeline: merge, fractals, filter, stroke chain (minimum 4 bars), strokes,
    /// segments, big segments and superior segments.
    pub fn new_with_cases(
        highs: Vec<i64>,
        lows: Vec<i64>,
        stroke_cases: StrokeCases,
        levels_cases: StrokeCases,
    ) -> (r: Self)
        requires
            lows.len() >= highs.len(),
        ensures
            r.highs@ == highs@,
            r.lows@ == lows@,
            r.computed_from(stroke_cases, levels_cases),
    {
        let merged = process_merged_candles(highs.as_slice(), lows.as_slice());
        let points = identify_fractals(merged.as_slice());
        let valid = filter_fractals(points.as_slice());
        let ff = process_strokes_fractals_with_cases(
            valid.as_slice(),
            stroke_cases.case3,
            stroke_cases.case4,
            MIN_STROKE_BARS,
        );
        let strokes = build_strokes(ff.as_slice());
        let segs = process_segments_with_cases(
            strokes.as_slice(),
            levels_cases.case3,
            levels_cases.case4,
        );
        proof {
            assert(strokes@.len() == strokes.len());
            lemma_segments_well_formed(strokes@, levels_cases.case3, levels_cases.case4);
            assert(segs_in_range(strokes@.len(), segs@));
        }
        let bigs = process_big_segments_with_cases(
            strokes.as_slice(),
            segs.as_slice(),
            levels_cases.case3,
            levels_cases.case4,
        );
        proof {
            assert(segs@.len() == segs.len());
            lemma_segments_well_formed(
                project_segments(strokes@, segs@),
                levels_cases.case3,
                levels_cases.case4,
            );
            assert(bigs_in_range(strokes@, segs@, bigs@));
        }
        let sups = process_superior_segments_with_cases(
            strokes.as_slice(),
            segs.as_slice(),
            bigs.as_slice(),
            levels_cases.case3,
            levels_cases.case4,
        );
        ChanlunPipeline {
            highs,
            lows,
            merged,
            valid_fractals: valid,
            final_fractals: ff,
            strokes,
            segments: segs,
            big_segments: bigs,
            superior_segments: sups,
        }
    }

    /// Assembles a pipeline from stages computed elsewhere, without recomputation.
    pub fn from_parts(
        highs: Vec<i64>,
        lows: Vec<i64>,
        merged: Vec<MergedCandle>,
        valid_fractals: Vec<Fractal>,
        final_fractals: Vec<Fractal>,
        strokes: Vec<Stroke>,
        segments: Vec<(usize, usize, bool)>,
        big_segments: Vec<(usize, usize, bool)>,
        superior_segments: Vec<(usize, usize, bool)>,
    ) -> (r: Self)
        ensures
            r == (ChanlunPipeline {
                highs,
                lows,
                merged,
                valid_fractals,
                final_fractals,
                strokes,
                segments,
                big_segments,
                superior_segments,
            }),
    {
        ChanlunPipeline {
            highs,
            lows,
            merged,
            valid_fractals,
            final_fractals,
            strokes,
            segments,
            big_segments,
            superior_segments,
        }
    }

    /// Counts of every stage.
    pub fn stats(&self) -> (r: ChanlunStats)
        ensures
            r.bars == self.highs.len(),
            r.merged == self.merged.len(),
            r.fractals == self.valid_fractals.len(),
            r.final_fractals == self.final_fractals.len(),
            r.strokes == self.strokes.len(),
            r.segments == self.segments.len(),
            r.big_segments == self.big_segments.len(),
            r.superior_segments == self.superior_segments.len(),
    {
        ChanlunStats {
            bars: self.highs.len(),
            merged: self.merged.len(),
            fractals: self.valid_fractals.len(),
            final_fractals: self.final_fractals.len(),
            strokes: self.strokes.len(),
            segments: self.segments.len(),
            big_segments: self.big_segments.len(),
            superior_segments: self.superior_segments.len(),
        }
    }
}

/// Law: two pipelines computed from the same bars with the same switches hold the same
/// stages.
pub proof fn lemma_pipeline_deterministic(
    a: ChanlunPipeline,
    b: ChanlunPipeline,
    stroke_cases: StrokeCases,
    levels_cases: StrokeCases,
)
    requires
        a.computed_from(stroke_cases, levels_cases),
        b.computed_from(stroke_cases, levels_cases),
        a.highs@ == b.highs@,
        a.lows@ == b.lows@,
    ensures
        a.merged@ == b.merged@,
        a.valid_fractals@ == b.valid_fractals@,
        a.final_fractals@ == b.final_fractals@,
        a.strokes@ == b.strokes@,
        a.segments@ == b.segments@,
        a.big_segments@ == b.big_segments@,
        a.superior_segments@ == b.superior_segments@,
{
}

/// Law: every stroke goes forward in time: the final fractals are in strictly increasing
/// bar order, so each stroke starts at an earlier bar than the one it ends at.
pub proof fn lemma_strokes_go_forward(
    p: ChanlunPipeline,
    stroke_cases: StrokeCases,
    levels_cases: StrokeCases,
)
    requires
        p.computed_from(stroke_cases, levels_cases),
    ensures
        strictly_sorted_by_bar(p.final_fractals@),
        forall|k: int|
            0 <= k < p.strokes@.len() ==> #[trigger] p.strokes@[k].start_bar < p.strokes@[k].end_bar,
{
    assert(p.highs@.len() == p.highs.len());
    lemma_filtered_in_time_order(p.highs@, p.lows@);
    lemma_stroke_chain_in_time_order(
        p.valid_fractals@,
        stroke_cases.case3,
        stroke_cases.case4,
        MIN_STROKE_BARS,
    );
    let ff = p.final_fractals@;
    assert forall|k: int| 0 <= k < p.strokes@.len() implies #[trigger] p.strokes@[k].start_bar
        < p.strokes@[k].end_bar by {
        assert(ff[k].bar_index < ff[k + 1].bar_index);
    }
}

} // verus!
