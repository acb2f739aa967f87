//! Parsed charts: notes as they come from a tab, grouped by difficulty.
use vstd::prelude::*;

verus! {

/// Every time in a chart, onset plus sustain, stays below this bound
/// (about thirty thousand years, in microseconds).
pub const TIME_LIMIT: u64 = 1_000_000_000_000_000_000;

/// Playing techniques that a note can carry.
#[derive(Clone, Copy, Debug, PartialEq, Eq, Structural)]
pub enum Techniques {
    Slide,
    Bend,
    Tremolo,
    Harmonic,
    HammerOn,
    PullOff,
    PalmMute,
    Vibrato,
    Tap,
    Slap,
    Pop,
    PinchHarmonic,
    Chord,
    ChordNote,
    Arpeggio,
}

impl Techniques {
    /// A small positive code for each technique, its position in the list plus one.
    pub open spec fn spec_code(self) -> u64 {
        match self {
            Techniques::Slide => 1,
            Techniques::Bend => 2,
            Techniques::Tremolo => 3,
            Techniques::Harmonic => 4,
            Techniques::HammerOn => 5,
            Techniques::PullOff => 6,
            Techniques::PalmMute => 7,
            Techniques::Vibrato => 8,
            Techniques::Tap => 9,
            Techniques::Slap => 10,
            Techniques::Pop => 11,
            Techniques::PinchHarmonic => 12,
            Techniques::Chord => 13,
            Techniques::ChordNote => 14,
            Techniques::Arpeggio => 15,
        }
    }

    pub fn code(&self) -> (r: u64)
        ensures
            r == self.spec_code(),
    {
        match self {
            Techniques::Slide => 1,
            Techniques::Bend => 2,
            Techniques::Tremolo => 3,
            Techniques::Harmonic => 4,
            Techniques::HammerOn => 5,
            Techniques::PullOff => 6,
            Techniques::PalmMute => 7,
            Techniques::Vibrato => 8,
            Techniques::Tap => 9,
            Techniques::Slap => 10,
            Techniques::Pop => 11,
            Techniques::PinchHarmonic => 12,
            Techniques::Chord => 13,
            Techniques::ChordNote => 14,
            Techniques::Arpeggio => 15,
        }
    }
}

/// One note of a chart. A negative `string` marks a note that is not
/// placed on any string; a negative `anchor_fret`, `slide_to` or
/// `slide_unpitch_to` means the value is absent.
pub struct TabNote {
    /// Onset, in microseconds.
    pub time: u64,
    pub techniques: Vec<Techniques>,
    pub string: i32,
    pub fret: i32,
    pub anchor_fret: i32,
    /// Sustain length, in microseconds.
    pub sustain: u64,
    pub slide_to: i32,
    pub slide_unpitch_to: i32,
    /// Largest bend, in hundredths of a semitone.
    pub max_bend: u32,
}

/// The notes of one difficulty level.
pub struct TabNoteChart {
    pub difficulty: i32,
    pub notes: Vec<TabNote>,
}

impl TabNote {
    pub open spec fn end(&self) -> int {
        self.time + self.sustain
    }

    /// Times stay below `TIME_LIMIT`, and the fret that the bend rises to
    /// is a representable fret.
    pub open spec fn well_formed(&self) -> bool {
        &&& self.time + self.sustain <= TIME_LIMIT
        &&& self.fret + (self.max_bend + 99) / 100 <= 0x7fff_ffff
    }
}

impl TabNoteChart {
    pub open spec fn well_formed(&self) -> bool {
        forall|i: int| 0 <= i < self.notes@.len() ==> (#[trigger] self.notes@[i]).well_formed()
    }
}

pub open spec fn charts_well_formed(charts: Seq<TabNoteChart>) -> bool {
    forall|i: int| 0 <= i < charts.len() ==> (#[trigger] charts[i]).well_formed()
}

pub open spec fn min_difficulty(charts: Seq<TabNoteChart>) -> int
    decreases charts.len(),
{
    if charts.len() == 0 {
        0
    } else if charts.len() == 1 {
        charts[0].difficulty as int
    } else {
        let rest = min_difficulty(charts.drop_last());
        if (charts.last().difficulty as int) < rest {
            charts.last().difficulty as int
        } else {
            rest
        }
    }
}

pub open spec fn max_difficulty(charts: Seq<TabNoteChart>) -> int
    decreases charts.len(),
{
    if charts.len() == 0 {
        0
    } else if charts.len() == 1 {
        charts[0].difficulty as int
    } else {
        let rest = max_difficulty(charts.drop_last());
        if (charts.last().difficulty as int) > rest {
            charts.last().difficulty as int
        } else {
            rest
        }
    }
}

/// The highest difficulty shown at `percent` (taken as 100 above 100):
/// `ceil(max * percent / 100)`, never below the lowest difficulty.
pub open spec fn difficulty_threshold(charts: Seq<TabNoteChart>, percent: u32) -> int {
    let lo = min_difficulty(charts);
    let hi = max_difficulty(charts);
    let p = if percent > 100 { 100 } else { percent as int };
    let t = if hi <= 0 { lo } else { (hi * p + 99) / 100 };
    if t < lo { lo } else { t }
}

/// Chart `a` comes before chart `b`: lower difficulty first, then list order.
pub open spec fn chart_before(charts: Seq<TabNoteChart>, a: usize, b: usize) -> bool {
    charts[a as int].difficulty < charts[b as int].difficulty
        || (charts[a as int].difficulty == charts[b as int].difficulty && a < b)
}

/// `sel` lists, each once and in `chart_before` order, exactly the charts
/// whose difficulty is at most `threshold`.
pub open spec fn is_selection(charts: Seq<TabNoteChart>, sel: Seq<usize>, threshold: int) -> bool {
    &&& forall|i: int| 0 <= i < sel.len() ==> #[trigger] sel[i] < charts.len()
        && charts[sel[i] as int].difficulty <= threshold
    &&& forall|k: usize| k < charts.len() && charts[k as int].difficulty <= threshold
        ==> #[trigger] sel.contains(k)
    &&& forall|i: int, j: int| 0 <= i < j < sel.len() ==> chart_before(charts, #[trigger] sel[i], #[trigger] sel[j])
}

/// Indices of the charts shown at `difficulty_percent`, lowest difficulty
/// first: every chart up to `difficulty_threshold`, which always includes
/// the easiest chart.
pub fn select_charts_up_to(charts: &Vec<TabNoteChart>, difficulty_percent: u32) -> (r: Vec<usize>)
    ensures
        is_selection(charts@, r@, difficulty_threshold(charts@, difficulty_percent)),
{
    let n = charts.len();
    if n == 0 {
        return Vec::new();
    }
    let mut lo: i32 = charts[0].difficulty;
    let mut hi: i32 = charts[0].difficulty;
    let mut i: usize = 1;
    while i < n
        invariant
            1 <= i <= n,
            n == charts@.len(),
            lo == min_difficulty(charts@.subrange(0, i as int)),
            hi == max_difficulty(charts@.subrange(0, i as int)),
        decreases n - i,
    {
        proof {
            assert(charts@.subrange(0, i + 1).drop_last() =~= charts@.subrange(0, i as int));
        }
        let d = charts[i].difficulty;
        if d < lo {
            lo = d;
        }
        if d > hi {
            hi = d;
        }
        i = i + 1;
    }
    assert(charts@.subrange(0, n as int) =~= charts@);
    let p: i64 = if difficulty_percent > 100 { 100 } else { difficulty_percent as i64 };
    let mut threshold: i64 = if hi <= 0 {
        lo as i64
    } else {
        assert(0 <= hi as i64 * p <= 100 * 0x7fff_ffff) by (nonlinear_arith)
            requires
                0 < hi <= 0x7fff_ffff,
                0 <= p <= 100,
        ;
        (hi as i64 * p + 99) / 100
    };
    if threshold < lo as i64 {
        threshold = lo as i64;
    }
    let ghost thr = difficulty_threshold(charts@, difficulty_percent);
    assert(threshold == thr);
    let mut out: Vec<usize> = Vec::new();
    let mut k: usize = 0;
    while k < n
        invariant
            k <= n,
            n == charts@.len(),
            threshold == thr,
            forall|a: int| 0 <= a < out@.len() ==> #[trigger] out@[a] < k
                && charts@[out@[a] as int].difficulty <= thr,
            forall|c: usize| c < k && charts@[c as int].difficulty <= thr ==> #[trigger] out@.contains(c),
            forall|a: int, b: int| 0 <= a < b < out@.len() ==> chart_before(charts@, #[trigger] out@[a], #[trigger] out@[b]),
        decreases n - k,
    {
        let d = charts[k].difficulty;
        if d as i64 <= threshold {
            let mut q: usize = 0;
            while q < out.len() && charts[out[q]].difficulty <= d
                invariant
                    q <= out@.len(),
                    k < n,
                    n == charts@.len(),
                    forall|a: int| 0 <= a < out@.len() ==> #[trigger] out@[a] < k,
                    forall|a: int| 0 <= a < q ==> charts@[#[trigger] out@[a] as int].difficulty <= d,
                decreases out.len() - q,
            {
                q = q + 1;
            }
            let ghost before = out@;
            out.insert(q, k);
            proof {
                assert forall|c: usize| c < k + 1 && charts@[c as int].difficulty <= thr implies #[trigger] out@.contains(c) by {
                    if c == k {
                        assert(out@[q as int] == k);
                    } else {
                        assert(before.contains(c));
                        let w = choose|w: int| 0 <= w < before.len() && before[w] == c;
                        if w < q {
                            assert(out@[w] == c);
                        } else {
                            assert(out@[w + 1] == c);
                        }
                    }
                }
                assert forall|a: int, b: int| 0 <= a < b < out@.len() implies chart_before(charts@, #[trigger] out@[a], #[trigger] out@[b]) by {
                    if b < q {
                    } else if b == q {
                        assert(charts@[out@[a] as int].difficulty <= d);
                    } else if a < q {
                        assert(out@[b] == before[b - 1]);
                        if a + 1 == b {
                        } else {
                            assert(chart_before(charts@, before[a], before[b - 1]));
                        }
                    } else if a == q {
                        assert(out@[b] == before[b - 1]);
                        assert(!(charts@[before[q as int] as int].difficulty <= d));
                        if b - 1 > q {
                            assert(chart_before(charts@, before[q as int], before[b - 1]));
                        }
                    } else {
                        assert(chart_before(charts@, before[a - 1], before[b - 1]));
                    }
                }
            }
        }
        k = k + 1;
    }
    out
}

} // verus!

verus! {

/// For given charts and threshold there is only one selection.
pub proof fn lemma_selection_unique(charts: Seq<TabNoteChart>, a: Seq<usize>, b: Seq<usize>, threshold: int)
    requires
        is_selection(charts, a, threshold),
        is_selection(charts, b, threshold),
    ensures
        a == b,
{
    let lt = |x: usize, y: usize| chart_before(charts, x, y);
    assert(crate::sort::strict_order(lt));
    assert(crate::sort::strictly_sorted(a, lt)) by {
        assert forall|i: int, j: int| 0 <= i < j < a.len() implies lt(#[trigger] a[i], #[trigger] a[j]) by {
            assert(chart_before(charts, a[i], a[j]));
        }
    }
    assert(crate::sort::strictly_sorted(b, lt)) by {
        assert forall|i: int, j: int| 0 <= i < j < b.len() implies lt(#[trigger] b[i], #[trigger] b[j]) by {
            assert(chart_before(charts, b[i], b[j]));
        }
    }
    assert forall|x: usize| a.contains(x) <==> b.contains(x) by {
        if a.contains(x) {
            let i = choose|i: int| 0 <= i < a.len() && a[i] == x;
            assert(x < charts.len() && charts[x as int].difficulty <= threshold);
        }
        if b.contains(x) {
            let i = choose|i: int| 0 <= i < b.len() && b[i] == x;
            assert(x < charts.len() && charts[x as int].difficulty <= threshold);
        }
    }
    crate::sort::lemma_strictly_sorted_unique(a, b, lt);
}

} // verus!
