//! The per-frame input of the timeline: playback time, block duration, the
//! window of time on show, and the merged notes within it.
use vstd::prelude::*;
use crate::chart::{TabNoteChart, TIME_LIMIT, charts_well_formed, difficulty_threshold, is_selection};
use crate::merge::{candidates, is_merge_of, merge_visible_notes, string_count_of, string_count_for};
use crate::note::TimelineNote;
use crate::tempo::{
    DEFAULT_BLOCK_DURATION, MAX_BLOCK_DURATION, MIN_BLOCK_DURATION, block_duration_for, clamp,
    clamp_block_duration, determine_initial_block_duration,
};
use crate::chart::select_charts_up_to;

verus! {

/// Number of blocks on show at once.
pub const VISIBLE_BLOCKS: u64 = 4;

pub fn visible_block_count() -> (r: usize)
    ensures
        r == VISIBLE_BLOCKS,
{
    4
}

/// What the timeline is fed each frame: the number of strings, the window
/// of time on show, the merged notes within it, playback time, and the
/// block duration (estimated once, then locked until the feed is cleared).
pub struct StringTimelineFeed {
    pub string_count: usize,
    pub window_start: u64,
    pub window_end: u64,
    pub notes: Vec<TimelineNote>,
    pub current_time: u64,
    pub block_duration: u64,
    pub block_duration_locked: bool,
}

impl Default for StringTimelineFeed {
    fn default() -> (r: Self)
        ensures
            r.string_count == 0,
            r.window_start == 0,
            r.window_end == DEFAULT_BLOCK_DURATION * VISIBLE_BLOCKS,
            r.notes@.len() == 0,
            r.current_time == 0,
            r.block_duration == DEFAULT_BLOCK_DURATION,
            !r.block_duration_locked,
    {
        StringTimelineFeed {
            string_count: 0,
            window_start: 0,
            window_end: DEFAULT_BLOCK_DURATION * VISIBLE_BLOCKS,
            notes: Vec::new(),
            current_time: 0,
            block_duration: DEFAULT_BLOCK_DURATION,
            block_duration_locked: false,
        }
    }
}

/// The block duration a feed settles on: its own, or the default when it
/// has none, clamped into range.
pub open spec fn settled_duration(d: u64) -> u64 {
    clamp(
        if d > 0 { d as int } else { DEFAULT_BLOCK_DURATION as int },
        MIN_BLOCK_DURATION as int,
        MAX_BLOCK_DURATION as int,
    ) as u64
}

/// The window starts one block before the block holding `time` (at 0 for
/// the first block) and spans `VISIBLE_BLOCKS` blocks.
pub open spec fn window_start_for(d: u64, time: u64) -> int {
    let current = time / d;
    let first = if current >= 1 { current - 1 } else { 0 };
    first * d
}

impl StringTimelineFeed {
    /// Length of the window on show, at least one microsecond.
    pub fn window_length(&self) -> (r: u64)
        ensures
            r == (if self.window_end > self.window_start { self.window_end - self.window_start } else { 1 }),
    {
        if self.window_end > self.window_start {
            self.window_end - self.window_start
        } else {
            1
        }
    }

    /// Settles the block duration and places the window around `current_time`.
    pub fn update_timeline_window(&mut self, current_time: u64)
        requires
            current_time <= TIME_LIMIT,
        ensures
            final(self).block_duration == settled_duration(old(self).block_duration),
            final(self).window_start == window_start_for(final(self).block_duration, current_time),
            final(self).window_end == final(self).window_start + final(self).block_duration * VISIBLE_BLOCKS,
            final(self).string_count == old(self).string_count,
            final(self).notes == old(self).notes,
            final(self).current_time == old(self).current_time,
            final(self).block_duration_locked == old(self).block_duration_locked,
    {
        let d = clamp_block_duration(
            if self.block_duration > 0 { self.block_duration } else { DEFAULT_BLOCK_DURATION },
        );
        self.block_duration = d;
        let current = current_time / d;
        let first = if current >= 1 { current - 1 } else { 0 };
        assert(first * d <= current_time) by (nonlinear_arith)
            requires
                current == current_time / d,
                first <= current,
                d > 0,
        ;
        let start = first * d;
        self.window_start = start;
        self.window_end = start + d * VISIBLE_BLOCKS;
    }

    /// One frame's update from the charts of a string arrangement: selects
    /// the charts shown at `difficulty_percent`, estimates the block
    /// duration once (until the feed is cleared), places the window, and
    /// merges the notes within it.
    pub fn track_strings(&mut self, charts: &Vec<TabNoteChart>, difficulty_percent: u32, current_time: u64)
        requires
            current_time <= TIME_LIMIT,
            charts_well_formed(charts@),
        ensures
            final(self).current_time == current_time,
            ({
                let thr = difficulty_threshold(charts@, difficulty_percent);
                let any = exists|k: int| 0 <= k < charts@.len() && charts@[k].difficulty <= thr;
                if !any {
                    &&& final(self).block_duration == DEFAULT_BLOCK_DURATION
                    &&& !final(self).block_duration_locked
                    &&& final(self).string_count == 0
                    &&& final(self).notes@.len() == 0
                    &&& final(self).window_start == window_start_for(DEFAULT_BLOCK_DURATION, current_time)
                } else {
                    exists|sel: Seq<usize>| {
                        &&& is_selection(charts@, sel, thr)
                        &&& final(self).block_duration == (if old(self).block_duration_locked {
                            settled_duration(old(self).block_duration)
                        } else {
                            block_duration_for(charts@, sel)
                        })
                        &&& final(self).block_duration_locked
                        &&& final(self).window_start == window_start_for(final(self).block_duration, current_time)
                        &&& final(self).window_end == final(self).window_start + final(self).block_duration * VISIBLE_BLOCKS
                        &&& final(self).string_count == string_count_for(charts@, sel, sel.len() as int)
                        &&& is_merge_of(final(self).notes@, candidates(charts@, sel, sel.len() as int, final(self).window_start, final(self).window_end))
                    }
                }
            }),
    {
        self.current_time = current_time;
        if self.block_duration == 0 {
            self.block_duration = DEFAULT_BLOCK_DURATION;
        }
        let selected = select_charts_up_to(charts, difficulty_percent);
        let ghost thr = difficulty_threshold(charts@, difficulty_percent);
        let n = charts.len();
        if selected.len() == 0 {
            self.block_duration = DEFAULT_BLOCK_DURATION;
            self.block_duration_locked = false;
            self.update_timeline_window(current_time);
            self.string_count = 0;
            self.notes = Vec::new();
            assert(!exists|k: int| 0 <= k < charts@.len() && charts@[k].difficulty <= thr) by {
                if exists|k: int| 0 <= k < charts@.len() && charts@[k].difficulty <= thr {
                    let k = choose|k: int| 0 <= k < charts@.len() && charts@[k].difficulty <= thr;
                    assert(k < n);
                    let ku = k as usize;
                    assert(ku < charts@.len() && charts@[ku as int].difficulty <= thr);
                    assert(selected@.contains(ku));
                }
            }
            return;
        }
        assert(charts@[selected@[0] as int].difficulty <= thr);
        if !self.block_duration_locked {
            self.block_duration = determine_initial_block_duration(charts, &selected);
            self.block_duration_locked = true;
        }
        self.update_timeline_window(current_time);
        self.string_count = string_count_of(charts, &selected);
        self.notes = merge_visible_notes(charts, &selected, self.window_start, self.window_end);
    }

    /// One frame's update for an arrangement without strings: nothing is
    /// shown and the block duration returns to the default.
    pub fn clear_for_vocals(&mut self, current_time: u64)
        requires
            current_time <= TIME_LIMIT,
        ensures
            final(self).current_time == current_time,
            final(self).block_duration == DEFAULT_BLOCK_DURATION,
            !final(self).block_duration_locked,
            final(self).string_count == 0,
            final(self).notes@.len() == 0,
            final(self).window_start == window_start_for(DEFAULT_BLOCK_DURATION, current_time),
            final(self).window_end == final(self).window_start + DEFAULT_BLOCK_DURATION * VISIBLE_BLOCKS,
    {
        self.current_time = current_time;
        self.block_duration = DEFAULT_BLOCK_DURATION;
        self.block_duration_locked = false;
        self.update_timeline_window(current_time);
        self.string_count = 0;
        self.notes = Vec::new();
    }
}

/// Length of the window on show: `VISIBLE_BLOCKS` blocks.
pub fn timeline_window_seconds(feed: &StringTimelineFeed) -> (r: u64)
    requires
        feed.block_duration <= MAX_BLOCK_DURATION,
    ensures
        r == feed.block_duration * VISIBLE_BLOCKS,
{
    feed.block_duration * VISIBLE_BLOCKS
}

pub fn timeline_block_duration(feed: &StringTimelineFeed) -> (r: u64)
    ensures
        r == feed.block_duration,
{
    feed.block_duration
}

} // verus!
