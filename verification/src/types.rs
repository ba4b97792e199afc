use vstd::prelude::*;

verus! {

/// A candle after inclusion processing; prices are integer ticks.
#[derive(Clone, Copy, Debug, PartialEq, Eq, Structural)]
pub struct MergedCandle {
    pub high: i64,
    pub low: i64,
    pub high_bar_index: usize,
    pub low_bar_index: usize,
}

/// A top or bottom fractal.
#[derive(Clone, Copy, Debug, PartialEq, Eq, Structural)]
pub struct Fractal {
    pub price: i64,
    pub is_top: bool,
    pub bar_index: usize,
    pub merged_index: usize,
    pub time: usize,
}

/// A stroke between two consecutive final fractals.
#[derive(Clone, Copy, Debug, PartialEq, Eq, Structural)]
pub struct Stroke {
    pub start_price: i64,
    pub end_price: i64,
    pub start_bar: usize,
    pub end_bar: usize,
    pub is_up: bool,
}

/// The stroke that joins two fractals.
pub open spec fn stroke_between(s: Fractal, e: Fractal) -> Stroke {
    Stroke {
        start_price: s.price,
        end_price: e.price,
        start_bar: s.bar_index,
        end_bar: e.bar_index,
        is_up: !s.is_top && e.is_top,
    }
}

/// One stroke per pair of consecutive fractals.
pub open spec fn strokes_of(ff: Seq<Fractal>) -> Seq<Stroke> {
    if ff.len() < 2 {
        Seq::empty()
    } else {
        Seq::new((ff.len() - 1) as nat, |i: int| stroke_between(ff[i], ff[i + 1]))
    }
}

/// Builds one stroke per pair of consecutive fractals.
pub fn build_strokes(final_fractals: &[Fractal]) -> (strokes: Vec<Stroke>)
    ensures
        strokes@ == strokes_of(final_fractals@),
{
    let total = final_fractals.len();
    let mut strokes: Vec<Stroke> = Vec::new();
    if total < 2 {
        return strokes;
    }
    let mut i: usize = 0;
    while i < total - 1
        invariant
            total == final_fractals.len(),
            total >= 2,
            i <= total - 1,
            strokes.len() == i,
            forall|k: int|
                0 <= k < i ==> #[trigger] strokes[k] == stroke_between(
                    final_fractals[k],
                    final_fractals[k + 1],
                ),
        decreases total - 1 - i,
    {
        let s = final_fractals[i];
        let e = final_fractals[i + 1];
        let is_up = !s.is_top && e.is_top;
        strokes.push(
            Stroke {
                start_price: s.price,
                end_price: e.price,
                start_bar: s.bar_index,
                end_bar: e.bar_index,
                is_up,
            },
        );
        i = i + 1;
    }
    assert(strokes@ =~= strokes_of(final_fractals@));
    strokes
}

/// Case switches: whether case 3 and case 4 are enabled.
#[derive(Debug, Clone, Copy, PartialEq, Eq, Structural)]
pub struct StrokeCases {
    pub case3: bool,
    pub case4: bool,
}

impl Default for StrokeCases {
    fn default() -> (r: Self)
        ensures
            r == (StrokeCases { case3: true, case4: true }),
    {
        StrokeCases { case3: true, case4: true }
    }
}

/// The switches selected by a parameter value: 3 turns case 3 off, 4 turns case 4 off,
/// 5 (or the older 34) turns both off; every other value leaves both on.
pub open spec fn cases_of_param(v: u8) -> StrokeCases {
    if v == 3 {
        StrokeCases { case3: false, case4: true }
    } else if v == 4 {
        StrokeCases { case3: true, case4: false }
    } else if v == 5 || v == 34 {
        StrokeCases { case3: false, case4: false }
    } else {
        StrokeCases { case3: true, case4: true }
    }
}

impl StrokeCases {
    /// Parameter value to switches: 0 = all on, 3 = case 3 off, 4 = case 4 off,
    /// 5 or 34 = both off; unknown values mean all on.
    pub fn from_param(v: u8) -> (r: Self)
        ensures
            r == cases_of_param(v),
    {
        match v {
            3 => StrokeCases { case3: false, case4: true },
            4 => StrokeCases { case3: true, case4: false },
            5 | 34 => StrokeCases { case3: false, case4: false },
            _ => StrokeCases::default(),
        }
    }
}

/// Element counts of every pipeline stage.
#[derive(Debug, Clone, Copy, PartialEq, Eq, Structural)]
pub struct ChanlunStats {
    pub bars: usize,
    pub merged: usize,
    pub fractals: usize,
    pub final_fractals: usize,
    pub strokes: usize,
    pub segments: usize,
    pub big_segments: usize,
    pub superior_segments: usize,
}

} // verus!
