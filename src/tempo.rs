//! Block-duration estimation from note onsets.
//!
//! Onset gaps become tempi in thousandths of a beat per minute, folded by
//! octaves into one range; their median gives a beat, and four beats make
//! a block.
use vstd::prelude::*;
use crate::chart::{TabNoteChart, TabNote, charts_well_formed};
use crate::sort::{sort_ascending, u64_leq};

verus! {

broadcast use vstd::seq_lib::group_to_multiset_ensures;

/// Block duration when no tempo can be estimated (microseconds).
pub const DEFAULT_BLOCK_DURATION: u64 = 10_000_000;
/// Shortest block duration (microseconds).
pub const MIN_BLOCK_DURATION: u64 = 1_200_000;
/// Longest block duration (microseconds).
pub const MAX_BLOCK_DURATION: u64 = 14_000_000;
/// Fewest distinct onsets from which a tempo is estimated.
pub const MIN_NOTES_FOR_TEMPO: usize = 8;
/// Fewest usable onset gaps from which a tempo is estimated.
pub const MIN_GAPS_FOR_TEMPO: usize = 7;
/// Shortest onset gap taken into account (microseconds).
pub const MIN_INTERVAL: u64 = 10_000;
/// Longest onset gap taken into account (microseconds).
pub const MAX_INTERVAL: u64 = 4_000_000;
/// Onsets closer than this to the previous kept onset are merged (microseconds).
pub const ONSET_TOLERANCE: u64 = 500;
pub const BEATS_PER_BLOCK: u64 = 4;
/// Bounds of an estimated beat (microseconds).
pub const MIN_BEAT: u64 = 250_000;
pub const MAX_BEAT: u64 = 1_500_000;
/// A gap of `g` microseconds is a tempo of `MILLI_BPM_MINUTE / g`
/// thousandths of a beat per minute.
pub const MILLI_BPM_MINUTE: u64 = 60_000_000_000;
/// Tempi are folded by octaves into `[MIN_FOLDED_TEMPO, MAX_FOLDED_TEMPO)`.
pub const MIN_FOLDED_TEMPO: u64 = 60_000;
pub const MAX_FOLDED_TEMPO: u64 = 240_000;

pub open spec fn clamp(x: int, lo: int, hi: int) -> int {
    if x < lo {
        lo
    } else if x > hi {
        hi
    } else {
        x
    }
}

/// Doubles a positive tempo until it reaches the lower bound of the range.
pub open spec fn fold_up(b: int) -> int
    decreases MIN_FOLDED_TEMPO - b,
{
    if b <= 0 || b >= MIN_FOLDED_TEMPO {
        b
    } else if 2 * b >= MIN_FOLDED_TEMPO {
        2 * b
    } else {
        fold_up(2 * b)
    }
}

/// Halves a tempo until it is below the upper bound of the range.
pub open spec fn fold_down(b: int) -> int
    decreases b,
{
    if b >= MAX_FOLDED_TEMPO {
        fold_down(b / 2)
    } else {
        b
    }
}

pub open spec fn folded_tempo(gap: int) -> int {
    fold_down(fold_up(MILLI_BPM_MINUTE as int / gap))
}

pub open spec fn gap(a: u64, b: u64) -> int {
    if b >= a {
        b - a
    } else {
        0
    }
}

pub open spec fn gap_usable(g: int) -> bool {
    MIN_INTERVAL <= g <= MAX_INTERVAL
}

/// Folded tempi of the usable gaps among the first `n` onsets, in order.
pub open spec fn gap_tempi(t: Seq<u64>, n: int) -> Seq<u64>
    decreases n,
{
    if n <= 1 {
        Seq::empty()
    } else {
        let prev = gap_tempi(t, n - 1);
        let g = gap(t[n - 2], t[n - 1]);
        if gap_usable(g) {
            prev.push(folded_tempo(g) as u64)
        } else {
            prev
        }
    }
}

/// Median of a sorted, non-empty sequence; the mean of the two middle values
/// (rounded down) when the length is even.
pub open spec fn median(s: Seq<u64>) -> int {
    let h = (s.len() / 2) as int;
    if s.len() % 2 == 0 {
        (s[h - 1] + s[h]) / 2
    } else {
        s[h] as int
    }
}

/// The beat (microseconds) that a list of onsets suggests, if any.
pub open spec fn beat_estimate(t: Seq<u64>) -> Option<u64> {
    let tempi = gap_tempi(t, t.len() as int);
    if t.len() < 2 || tempi.len() < MIN_GAPS_FOR_TEMPO {
        None
    } else {
        Some(
            clamp(
                MILLI_BPM_MINUTE as int / median(tempi.sort_by(u64_leq())),
                MIN_BEAT as int,
                MAX_BEAT as int,
            ) as u64,
        )
    }
}

/// Keeps the first `n` onsets of a sorted list, dropping each one that
/// lies within the tolerance of the last one kept.
pub open spec fn dedup_onsets(s: Seq<u64>, n: int) -> Seq<u64>
    decreases n,
{
    if n <= 0 {
        Seq::empty()
    } else {
        let prev = dedup_onsets(s, n - 1);
        if prev.len() > 0 && s[n - 1] - prev.last() < ONSET_TOLERANCE {
            prev
        } else {
            prev.push(s[n - 1])
        }
    }
}

/// Onsets of the first `n` notes that stand on a string.
pub open spec fn note_onsets(notes: Seq<TabNote>, n: int) -> Seq<u64>
    decreases n,
{
    if n <= 0 {
        Seq::empty()
    } else if notes[n - 1].string >= 0 {
        note_onsets(notes, n - 1).push(notes[n - 1].time)
    } else {
        note_onsets(notes, n - 1)
    }
}

/// Onsets of the selected charts (first `n` of `selected`), chart after chart.
pub open spec fn chart_onsets(charts: Seq<TabNoteChart>, selected: Seq<usize>, n: int) -> Seq<u64>
    decreases n,
{
    if n <= 0 {
        Seq::empty()
    } else {
        let notes = charts[selected[n - 1] as int].notes@;
        chart_onsets(charts, selected, n - 1) + note_onsets(notes, notes.len() as int)
    }
}

pub open spec fn valid_selection(charts: Seq<TabNoteChart>, selected: Seq<usize>) -> bool {
    forall|i: int| 0 <= i < selected.len() ==> #[trigger] selected[i] < charts.len()
}

/// Sorted, merged onsets of the selected charts.
pub open spec fn unique_onsets(charts: Seq<TabNoteChart>, selected: Seq<usize>) -> Seq<u64> {
    let all = chart_onsets(charts, selected, selected.len() as int);
    let sorted = all.sort_by(u64_leq());
    dedup_onsets(sorted, sorted.len() as int)
}

/// The block duration for the selected charts.
pub open spec fn block_duration_for(charts: Seq<TabNoteChart>, selected: Seq<usize>) -> u64 {
    let times = unique_onsets(charts, selected);
    if times.len() < MIN_NOTES_FOR_TEMPO {
        DEFAULT_BLOCK_DURATION
    } else {
        match beat_estimate(times) {
            Some(beat) => clamp(
                beat * BEATS_PER_BLOCK,
                MIN_BLOCK_DURATION as int,
                MAX_BLOCK_DURATION as int,
            ) as u64,
            None => DEFAULT_BLOCK_DURATION,
        }
    }
}

pub fn default_block_duration() -> (r: u64)
    ensures
        r == DEFAULT_BLOCK_DURATION,
{
    DEFAULT_BLOCK_DURATION
}

/// Clamps a duration into `[MIN_BLOCK_DURATION, MAX_BLOCK_DURATION]`.
pub fn clamp_block_duration(duration: u64) -> (r: u64)
    ensures
        r == clamp(duration as int, MIN_BLOCK_DURATION as int, MAX_BLOCK_DURATION as int),
{
    if duration < MIN_BLOCK_DURATION {
        MIN_BLOCK_DURATION
    } else if duration > MAX_BLOCK_DURATION {
        MAX_BLOCK_DURATION
    } else {
        duration
    }
}

fn fold_tempo(b: u64) -> (r: u64)
    requires
        0 < b,
    ensures
        r == fold_down(fold_up(b as int)),
        MIN_FOLDED_TEMPO <= r < MAX_FOLDED_TEMPO,
{
    let mut x: u64 = b;
    if x < MIN_FOLDED_TEMPO {
        while x < MIN_FOLDED_TEMPO
            invariant
                0 < x < 2 * MIN_FOLDED_TEMPO,
                fold_up(x as int) == fold_up(b as int),
            decreases 2 * MIN_FOLDED_TEMPO - x,
        {
            x = x * 2;
        }
    }
    let ghost up = x;
    while x >= MAX_FOLDED_TEMPO
        invariant
            MIN_FOLDED_TEMPO <= x,
            fold_down(x as int) == fold_down(up as int),
        decreases x,
    {
        x = x / 2;
    }
    x
}

/// The beat that a list of onsets suggests: `None` when there are fewer
/// than two onsets or fewer than `MIN_GAPS_FOR_TEMPO` usable gaps.
pub fn estimate_beat_duration(times: &Vec<u64>) -> (r: Option<u64>)
    ensures
        r == beat_estimate(times@),
{
    if times.len() < 2 {
        return None;
    }
    let mut tempi: Vec<u64> = Vec::new();
    let mut i: usize = 1;
    while i < times.len()
        invariant
            1 <= i <= times.len(),
            tempi@ == gap_tempi(times@, i as int),
            forall|k: int| 0 <= k < tempi@.len() ==> MIN_FOLDED_TEMPO <= #[trigger] tempi@[k] < MAX_FOLDED_TEMPO,
        decreases times.len() - i,
    {
        let a = times[i - 1];
        let b = times[i];
        let g: u64 = if b >= a { b - a } else { 0 };
        if MIN_INTERVAL <= g && g <= MAX_INTERVAL {
            assert(MILLI_BPM_MINUTE / g >= 15_000) by (nonlinear_arith)
                requires
                    0 < g <= MAX_INTERVAL,
            ;
            let t = fold_tempo(MILLI_BPM_MINUTE / g);
            tempi.push(t);
        }
        i = i + 1;
    }
    if tempi.len() < MIN_GAPS_FOR_TEMPO {
        return None;
    }
    let sorted = sort_ascending(&tempi);
    proof {
        crate::sort::lemma_u64_leq_total();
        tempi@.lemma_sort_by_ensures(u64_leq());
        assert forall|k: int| 0 <= k < sorted@.len() implies MIN_FOLDED_TEMPO <= #[trigger] sorted@[k] < MAX_FOLDED_TEMPO by {
            assert(sorted@.to_multiset().count(sorted@[k]) > 0);
            assert(tempi@.contains(sorted@[k]));
        }
    }
    let n = sorted.len();
    assert(sorted@.len() == tempi@.len()) by {
        assert(sorted@.to_multiset().len() == tempi@.to_multiset().len());
    }
    let mid: u64 = if n % 2 == 0 {
        (sorted[n / 2 - 1] + sorted[n / 2]) / 2
    } else {
        sorted[n / 2]
    };
    let beat = MILLI_BPM_MINUTE / mid;
    let beat = if beat < MIN_BEAT {
        MIN_BEAT
    } else if beat > MAX_BEAT {
        MAX_BEAT
    } else {
        beat
    };
    Some(beat)
}

/// The onsets of the selected charts that stand on a string, sorted, with
/// each onset within `ONSET_TOLERANCE` of the last one kept dropped.
pub fn collect_unique_note_times(charts: &Vec<TabNoteChart>, selected: &Vec<usize>) -> (r: Vec<u64>)
    requires
        valid_selection(charts@, selected@),
    ensures
        r@ == unique_onsets(charts@, selected@),
{
    let mut all: Vec<u64> = Vec::new();
    let mut c: usize = 0;
    while c < selected.len()
        invariant
            c <= selected.len(),
            valid_selection(charts@, selected@),
            all@ == chart_onsets(charts@, selected@, c as int),
        decreases selected.len() - c,
    {
        let chart = &charts[selected[c]];
        let ghost start = all@;
        let mut j: usize = 0;
        while j < chart.notes.len()
            invariant
                j <= chart.notes.len(),
                all@ == start + note_onsets(chart.notes@, j as int),
            decreases chart.notes.len() - j,
        {
            let note = &chart.notes[j];
            if note.string >= 0 {
                all.push(note.time);
            }
            proof {
                assert(note_onsets(chart.notes@, j + 1) == if chart.notes@[j as int].string >= 0 {
                    note_onsets(chart.notes@, j as int).push(chart.notes@[j as int].time)
                } else {
                    note_onsets(chart.notes@, j as int)
                });
                assert((start + note_onsets(chart.notes@, j as int)).push(chart.notes@[j as int].time)
                    =~= start + note_onsets(chart.notes@, j as int).push(chart.notes@[j as int].time));
            }
            j = j + 1;
        }
        c = c + 1;
    }
    let sorted = sort_ascending(&all);
    proof {
        crate::sort::lemma_u64_leq_total();
        all@.lemma_sort_by_ensures(u64_leq());
    }
    let mut out: Vec<u64> = Vec::new();
    let mut i: usize = 0;
    while i < sorted.len()
        invariant
            i <= sorted.len(),
            out@ == dedup_onsets(sorted@, i as int),
            vstd::relations::sorted_by(sorted@, u64_leq()),
            out@.len() > 0 ==> i > 0 && out@.last() <= sorted@[i - 1],
        decreases sorted.len() - i,
    {
        let t = sorted[i];
        let n = out.len();
        proof {
            if n > 0 {
                assert((u64_leq())(sorted@[i - 1], sorted@[i as int]));
            }
        }
        if n > 0 && t - out[n - 1] < ONSET_TOLERANCE {
        } else {
            out.push(t);
        }
        i = i + 1;
    }
    out
}

/// The block duration for the selected charts: four estimated beats,
/// clamped to `[MIN_BLOCK_DURATION, MAX_BLOCK_DURATION]`, or
/// `DEFAULT_BLOCK_DURATION` when no tempo can be estimated.
pub fn determine_initial_block_duration(charts: &Vec<TabNoteChart>, selected: &Vec<usize>) -> (r: u64)
    requires
        valid_selection(charts@, selected@),
    ensures
        r == block_duration_for(charts@, selected@),
        MIN_BLOCK_DURATION <= r <= MAX_BLOCK_DURATION,
{
    let times = collect_unique_note_times(charts, selected);
    if times.len() < MIN_NOTES_FOR_TEMPO {
        return DEFAULT_BLOCK_DURATION;
    }
    match estimate_beat_duration(&times) {
        Some(beat) => clamp_block_duration(beat * BEATS_PER_BLOCK),
        None => DEFAULT_BLOCK_DURATION,
    }
}

} // verus!

verus! {

/// Whatever the onsets, the block duration lies within
/// `[MIN_BLOCK_DURATION, MAX_BLOCK_DURATION]`.
pub proof fn lemma_block_duration_in_range(charts: Seq<TabNoteChart>, selected: Seq<usize>)
    ensures
        MIN_BLOCK_DURATION <= block_duration_for(charts, selected) <= MAX_BLOCK_DURATION,
{
}

} // verus!
