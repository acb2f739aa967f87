//! The fret panel: which notes are active, the span of frets they need,
//! where markers go, and the zoom that plays when the active notes change.
use vstd::prelude::*;
use crate::note::{FretMarkerKey, FretMarkerRole, NoteKey, TimelineNote, note_key};
use crate::reconcile::{FULL, Primitive, PrimitiveKey, keys_of, keys_seq, notes_fit, reconcile_row};
use crate::chart::TIME_LIMIT;

verus! {

/// Smallest distance between the first and last fret shown.
pub const MIN_FRET_SPAN: i64 = 4;
/// Notes whose onsets lie this close together form one group (microseconds).
pub const NOTE_GROUP_TOLERANCE: u64 = 80_000;
/// Length of the zoom-in (microseconds).
pub const FRET_ZOOM_DURATION: u64 = 280_000;
/// Scale the zoom-in starts from, in parts per million.
pub const FRET_ZOOM_START_SCALE: u64 = 850_000;

/// An inclusive range of frets.
#[derive(Clone, Copy, Debug, PartialEq, Eq, Structural)]
pub struct FretRange {
    pub start: i64,
    pub end: i64,
}

/// The range from `a` to `b` (in either order), widened until its ends are
/// `MIN_FRET_SPAN` apart: one fret down, then one up, in turn, but never
/// below fret 0.
pub open spec fn spec_fret_range(a: i64, b: i64) -> FretRange {
    let lo = if a <= b { a } else { b };
    let hi = if a <= b { b } else { a };
    if hi - lo >= MIN_FRET_SPAN {
        FretRange { start: lo, end: hi }
    } else {
        let need = MIN_FRET_SPAN - (hi - lo);
        let room = if lo > 0 { lo as int } else { 0 };
        let down = if room < (need + 1) / 2 { room } else { (need + 1) / 2 };
        FretRange { start: (lo - down) as i64, end: (hi + need - down) as i64 }
    }
}

impl FretRange {
    pub fn new(start: i64, end: i64) -> (r: FretRange)
        requires
            -0x1_0000_0000 <= start <= 0x1_0000_0000,
            -0x1_0000_0000 <= end <= 0x1_0000_0000,
        ensures
            r == spec_fret_range(start, end),
    {
        let lo = if start <= end { start } else { end };
        let hi = if start <= end { end } else { start };
        if hi - lo >= MIN_FRET_SPAN {
            FretRange { start: lo, end: hi }
        } else {
            let need = MIN_FRET_SPAN - (hi - lo);
            let room = if lo > 0 { lo } else { 0 };
            let down = if room < (need + 1) / 2 { room } else { (need + 1) / 2 };
            FretRange { start: lo - down, end: hi + need - down }
        }
    }

    pub open spec fn spec_span(&self) -> int {
        if self.end - self.start + 1 >= 1 { self.end - self.start + 1 } else { 1 }
    }

    /// Number of frets shown, at least one.
    pub fn span(&self) -> (r: u64)
        requires
            -0x1_0000_0000 <= self.start <= self.end <= 0x1_0000_0000,
        ensures
            r == self.spec_span(),
    {
        (self.end - self.start + 1) as u64
    }
}

/// Horizontal position of the middle of fret `f`, in parts per million of
/// the panel width (outside `[0, FULL]` for a fret outside the range).
pub open spec fn spec_fret_left(f: int, r: FretRange) -> int {
    ((f - r.start) * 2 + 1) * FULL / (2 * r.spec_span())
}

pub fn fret_left_percent(fret: i64, range: &FretRange) -> (r: i64)
    requires
        -0x1_0000_0000 <= range.start <= range.end <= 0x1_0000_0000,
        -0x1_0000_0000 <= fret <= 0x1_0000_0000,
    ensures
        r == spec_fret_left(fret as int, *range),
        -0x10_0000_0000 * FULL <= r <= 0x10_0000_0000 * FULL,
{
    let span = (range.end - range.start + 1) as i64;
    let off = (fret - range.start) * 2 + 1;
    assert(-0x10_0000_0000 * FULL <= off * (FULL as int) <= 0x10_0000_0000 * FULL) by (nonlinear_arith)
        requires
            -0x10_0000_0000 <= off <= 0x10_0000_0000,
    ;
    let num = off * (FULL as i64);
    let den = 2 * span;
    if num >= 0 {
        assert((num as int) / (den as int) <= num) by (nonlinear_arith)
            requires
                num >= 0,
                den >= 1,
        ;
        num / den
    } else {
        assert((-num + den - 1) / (den as int) <= -num) by (nonlinear_arith)
            requires
                num < 0,
                den >= 1,
        ;
        let q = (-num + den - 1) / den;
        assert(-(q as int) == (num as int) / (den as int)) by (nonlinear_arith)
            requires
                num < 0,
                den > 0,
                q == (-num + den - 1) / (den as int),
        ;
        -q
    }
}

/// Vertical position of string `s` among `count`, in parts per million:
/// evenly spaced from top to bottom, centred when there is only one.
pub open spec fn spec_string_position(s: int, count: int) -> int {
    if count <= 1 {
        FULL as int / 2
    } else {
        s * FULL / (count - 1)
    }
}

pub fn string_position_percent(string_index: usize, string_count: usize) -> (r: u64)
    requires
        string_index < string_count,
    ensures
        r == spec_string_position(string_index as int, string_count as int),
        r <= FULL,
{
    if string_count <= 1 {
        FULL / 2
    } else {
        let den: u128 = (string_count - 1) as u128;
        assert((string_index as int) * (FULL as int) <= 0x1_0000_0000_0000_0000 * FULL) by (nonlinear_arith)
            requires
                string_index <= 0xffff_ffff_ffff_ffff,
        ;
        let num: u128 = (string_index as u128) * (FULL as u128);
        let q: u128 = num / den;
        assert(q <= FULL) by (nonlinear_arith)
            requires
                q == num / den,
                num == string_index * FULL,
                string_index <= den,
                den > 0,
        ;
        let r = q as u64;
        r
    }
}

/// Horizontal position of grid line `i` of a grid over `span` frets, in
/// parts per million: line 0 at the left edge, line `span` at the right.
pub open spec fn spec_grid_line_left(i: int, span: int) -> int {
    i * FULL / span
}

pub fn fret_grid_line_left(i: u64, span: u64) -> (r: u64)
    requires
        0 < span,
        i <= span,
    ensures
        r == spec_grid_line_left(i as int, span as int),
        r <= FULL,
{
    proof {
        lemma_scaled_fraction(i as int, span as int);
    }
    assert(i * FULL <= 0xffff_ffff_ffff_ffff * FULL) by (nonlinear_arith)
        requires
            i <= 0xffff_ffff_ffff_ffff,
    ;
    ((i as u128) * (FULL as u128) / (span as u128)) as u64
}

/// `1 - (1 - t)^2`, in parts per million.
pub open spec fn spec_ease_out_quad(t: int) -> int {
    FULL - (FULL - t) * (FULL - t) / (FULL as int)
}

pub fn ease_out_quad(t: u64) -> (r: u64)
    requires
        t <= FULL,
    ensures
        r == spec_ease_out_quad(t as int),
        r <= FULL,
{
    let rest = FULL - t;
    assert(rest * rest <= FULL * FULL) by (nonlinear_arith)
        requires
            rest <= FULL,
    ;
    assert(rest * rest / (FULL as int) <= FULL) by (nonlinear_arith)
        requires
            rest * rest <= FULL * FULL,
    ;
    FULL - rest * rest / FULL
}

/// The zoom-in of the fret panel: time run so far.
#[derive(Clone, Copy, Debug, PartialEq, Eq, Structural)]
pub struct FretZoomAnimation {
    pub elapsed: u64,
}

impl FretZoomAnimation {
    pub fn new() -> (r: FretZoomAnimation)
        ensures
            r.elapsed == 0,
    {
        FretZoomAnimation { elapsed: 0 }
    }
}

/// Scale of the fret panel at zoom progress `p`: from
/// `FRET_ZOOM_START_SCALE` up to full size along the ease-out curve.
pub open spec fn spec_zoom_scale(p: int) -> int {
    FRET_ZOOM_START_SCALE + (FULL - FRET_ZOOM_START_SCALE) * spec_ease_out_quad(p) / (FULL as int)
}

pub open spec fn spec_zoom_progress(elapsed: int) -> int {
    if elapsed >= FRET_ZOOM_DURATION {
        FULL as int
    } else {
        elapsed * FULL / (FRET_ZOOM_DURATION as int)
    }
}

/// Advances the zoom by `delta` microseconds and returns the panel scale;
/// a finished zoom is dropped, and without one the scale is full.
pub fn progress_fret_zoom_animation(zoom: &mut Option<FretZoomAnimation>, delta: u64) -> (scale: u64)
    requires
        match *old(zoom) {
            Some(z) => z.elapsed < FRET_ZOOM_DURATION,
            None => true,
        },
    ensures
        match *old(zoom) {
            Some(z) => {
                let elapsed = z.elapsed + delta;
                &&& scale == spec_zoom_scale(spec_zoom_progress(elapsed))
                &&& *final(zoom) == if elapsed >= FRET_ZOOM_DURATION {
                    None
                } else {
                    Some(FretZoomAnimation { elapsed: elapsed as u64 })
                }
            },
            None => scale == FULL && *final(zoom) is None,
        },
        FRET_ZOOM_START_SCALE <= scale <= FULL,
{
    match *zoom {
        Some(z) => {
            let elapsed: u64 = if delta >= FRET_ZOOM_DURATION { FRET_ZOOM_DURATION } else { z.elapsed + delta };
            let p = if elapsed >= FRET_ZOOM_DURATION { FULL } else { elapsed * FULL / FRET_ZOOM_DURATION };
            let eased = ease_out_quad(p);
            assert((FULL - FRET_ZOOM_START_SCALE) * eased / (FULL as int) <= FULL - FRET_ZOOM_START_SCALE) by (nonlinear_arith)
                requires
                    eased <= FULL,
            ;
            let scale = FRET_ZOOM_START_SCALE + (FULL - FRET_ZOOM_START_SCALE) * eased / FULL;
            if elapsed >= FRET_ZOOM_DURATION {
                *zoom = None;
            } else {
                *zoom = Some(FretZoomAnimation { elapsed });
            }
            scale
        },
        None => FULL,
    }
}

/// The note is sounding at `t`, give or take the group tolerance.
pub open spec fn sounding(n: TimelineNote, t: u64) -> bool {
    n.time <= t + NOTE_GROUP_TOLERANCE && t <= n.time + n.sustain + NOTE_GROUP_TOLERANCE
}

/// The note starts no earlier than the group tolerance before `t`.
pub open spec fn upcoming(n: TimelineNote, t: u64) -> bool {
    n.time + NOTE_GROUP_TOLERANCE >= t
}

pub open spec fn min_opt(m: Option<u64>, x: u64) -> Option<u64> {
    match m {
        Some(v) => if x < v { Some(x) } else { Some(v) },
        None => Some(x),
    }
}

/// Earliest onset among the first `k` notes sounding at `t`.
pub open spec fn min_sounding(notes: Seq<TimelineNote>, k: int, t: u64) -> Option<u64>
    decreases k,
{
    if k <= 0 {
        None
    } else if sounding(notes[k - 1], t) {
        min_opt(min_sounding(notes, k - 1, t), notes[k - 1].time)
    } else {
        min_sounding(notes, k - 1, t)
    }
}

/// Earliest onset among the first `k` notes upcoming at `t`.
pub open spec fn min_upcoming(notes: Seq<TimelineNote>, k: int, t: u64) -> Option<u64>
    decreases k,
{
    if k <= 0 {
        None
    } else if upcoming(notes[k - 1], t) {
        min_opt(min_upcoming(notes, k - 1, t), notes[k - 1].time)
    } else {
        min_upcoming(notes, k - 1, t)
    }
}

pub open spec fn close(a: u64, b: u64) -> bool {
    if a >= b { a - b <= NOTE_GROUP_TOLERANCE } else { b - a <= NOTE_GROUP_TOLERANCE }
}

/// Note `i` is active at `t`: among the earliest-starting group of the
/// notes sounding at `t`, or, when none sounds, in the group of the next
/// onset.
pub open spec fn is_active(notes: Seq<TimelineNote>, t: u64, i: int) -> bool {
    match min_sounding(notes, notes.len() as int, t) {
        Some(m) => sounding(notes[i], t) && notes[i].time <= m + NOTE_GROUP_TOLERANCE,
        None => match min_upcoming(notes, notes.len() as int, t) {
            Some(m) => close(notes[i].time, m),
            None => false,
        },
    }
}

/// `r` lists, in ascending order, exactly the active notes.
pub open spec fn is_active_list(notes: Seq<TimelineNote>, t: u64, r: Seq<usize>) -> bool {
    &&& forall|a: int, b: int| 0 <= a < b < r.len() ==> #[trigger] r[a] < #[trigger] r[b]
    &&& forall|i: int| 0 <= i < r.len() ==> #[trigger] r[i] < notes.len() && is_active(notes, t, r[i] as int)
    &&& forall|i: int| 0 <= i < notes.len() && is_active(notes, t, i) ==> r.contains(i as usize)
}

/// Indices of the notes active at `current_time`.
pub fn collect_active_notes(notes: &Vec<TimelineNote>, current_time: u64) -> (r: Vec<usize>)
    requires
        crate::reconcile::notes_fit(notes@),
        current_time <= crate::chart::TIME_LIMIT,
    ensures
        is_active_list(notes@, current_time, r@),
{
    let t = current_time;
    let n = notes.len();
    let mut m: Option<u64> = None;
    let mut k: usize = 0;
    while k < n
        invariant
            n == notes@.len(),
            k <= n,
            crate::reconcile::notes_fit(notes@),
            t <= crate::chart::TIME_LIMIT,
            m == min_sounding(notes@, k as int, t),
        decreases n - k,
    {
        let x = &notes[k];
        assert(x.well_formed());
        if x.time <= t + NOTE_GROUP_TOLERANCE && t <= x.time + x.sustain + NOTE_GROUP_TOLERANCE {
            m = match m {
                Some(v) => if x.time < v { Some(x.time) } else { Some(v) },
                None => Some(x.time),
            };
        }
        k = k + 1;
    }
    let mut out: Vec<usize> = Vec::new();
    match m {
        Some(mt) => {
            assert(mt <= crate::chart::TIME_LIMIT) by {
                lemma_min_sounding_bound(notes@, n as int, t);
            }
            let mut i: usize = 0;
            while i < n
                invariant
                    n == notes@.len(),
                    i <= n,
                    crate::reconcile::notes_fit(notes@),
                    t <= crate::chart::TIME_LIMIT,
                    mt <= crate::chart::TIME_LIMIT,
                    min_sounding(notes@, n as int, t) == Some(mt),
                    forall|a: int, b: int| 0 <= a < b < out@.len() ==> #[trigger] out@[a] < #[trigger] out@[b],
                    forall|q: int| 0 <= q < out@.len() ==> #[trigger] out@[q] < i && is_active(notes@, t, out@[q] as int),
                    forall|q: int| 0 <= q < i && is_active(notes@, t, q) ==> out@.contains(q as usize),
                decreases n - i,
            {
                let x = &notes[i];
                assert(x.well_formed());
                if x.time <= t + NOTE_GROUP_TOLERANCE && t <= x.time + x.sustain + NOTE_GROUP_TOLERANCE
                    && x.time <= mt + NOTE_GROUP_TOLERANCE {
                    let ghost prev = out@;
                    out.push(i);
                    assert(out@[out@.len() - 1] == i);
                    assert forall|q: int| 0 <= q < i + 1 && is_active(notes@, t, q) implies out@.contains(q as usize) by {
                        crate::reconcile::lemma_push_contains(prev, i, q as usize);
                    }
                }
                i = i + 1;
            }
        },
        None => {
            let mut u: Option<u64> = None;
            let mut k: usize = 0;
            while k < n
                invariant
                    n == notes@.len(),
                    k <= n,
                    crate::reconcile::notes_fit(notes@),
                    u == min_upcoming(notes@, k as int, t),
                decreases n - k,
            {
                let x = &notes[k];
                assert(x.well_formed());
                if x.time + NOTE_GROUP_TOLERANCE >= t {
                    u = match u {
                        Some(v) => if x.time < v { Some(x.time) } else { Some(v) },
                        None => Some(x.time),
                    };
                }
                k = k + 1;
            }
            if let Some(ut) = u {
                let mut i: usize = 0;
                while i < n
                    invariant
                        n == notes@.len(),
                        i <= n,
                        min_sounding(notes@, n as int, t) is None,
                        min_upcoming(notes@, n as int, t) == Some(ut),
                        forall|a: int, b: int| 0 <= a < b < out@.len() ==> #[trigger] out@[a] < #[trigger] out@[b],
                        forall|q: int| 0 <= q < out@.len() ==> #[trigger] out@[q] < i && is_active(notes@, t, out@[q] as int),
                        forall|q: int| 0 <= q < i && is_active(notes@, t, q) ==> out@.contains(q as usize),
                    decreases n - i,
                {
                    let x = &notes[i];
                    let near = if x.time >= ut { x.time - ut <= NOTE_GROUP_TOLERANCE } else { ut - x.time <= NOTE_GROUP_TOLERANCE };
                    if near {
                        let ghost prev = out@;
                        out.push(i);
                        assert(out@[out@.len() - 1] == i);
                        assert forall|q: int| 0 <= q < i + 1 && is_active(notes@, t, q) implies out@.contains(q as usize) by {
                            crate::reconcile::lemma_push_contains(prev, i, q as usize);
                        }
                    }
                    i = i + 1;
                }
            }
        },
    }
    out
}

proof fn lemma_min_sounding_bound(notes: Seq<TimelineNote>, k: int, t: u64)
    requires
        0 <= k <= notes.len(),
        crate::reconcile::notes_fit(notes),
    ensures
        match min_sounding(notes, k, t) {
            Some(m) => m <= crate::chart::TIME_LIMIT,
            None => true,
        },
    decreases k,
{
    if k > 0 {
        lemma_min_sounding_bound(notes, k - 1, t);
        assert(notes[k - 1].well_formed());
    }
}

/// Widens `acc` to take in fret `f`; negative frets are ignored.
pub open spec fn take_fret(acc: Option<(i32, i32)>, f: i32) -> Option<(i32, i32)> {
    if f < 0 {
        acc
    } else {
        match acc {
            Some((lo, hi)) => Some((if f < lo { f } else { lo }, if f > hi { f } else { hi })),
            None => Some((f, f)),
        }
    }
}

/// The frets of a note: its primary fret, then its additional frets.
pub open spec fn frets_of(n: TimelineNote) -> Seq<i32> {
    seq![n.fret] + n.additional_frets@
}

pub open spec fn take_frets(acc: Option<(i32, i32)>, fs: Seq<i32>, k: int) -> Option<(i32, i32)>
    decreases k,
{
    if k <= 0 {
        acc
    } else {
        take_fret(take_frets(acc, fs, k - 1), fs[k - 1])
    }
}

/// Lowest and highest non-negative fret of the first `k` listed notes.
pub open spec fn fret_bounds(notes: Seq<TimelineNote>, active: Seq<usize>, k: int) -> Option<(i32, i32)>
    decreases k,
{
    if k <= 0 {
        None
    } else {
        let fs = frets_of(notes[active[k - 1] as int]);
        take_frets(fret_bounds(notes, active, k - 1), fs, fs.len() as int)
    }
}

pub open spec fn valid_indices(notes: Seq<TimelineNote>, active: Seq<usize>) -> bool {
    forall|i: int| 0 <= i < active.len() ==> #[trigger] active[i] < notes.len()
}

/// The fret range for the listed notes: every non-negative primary and
/// additional fret, widened to the minimum span; `None` when there is none.
pub open spec fn spec_compute_fret_range(notes: Seq<TimelineNote>, active: Seq<usize>) -> Option<FretRange> {
    match fret_bounds(notes, active, active.len() as int) {
        Some((lo, hi)) => Some(spec_fret_range(lo as i64, hi as i64)),
        None => None,
    }
}

fn take_fret_exec(acc: Option<(i32, i32)>, f: i32) -> (r: Option<(i32, i32)>)
    ensures
        r == take_fret(acc, f),
{
    if f < 0 {
        acc
    } else {
        match acc {
            Some((lo, hi)) => Some((if f < lo { f } else { lo }, if f > hi { f } else { hi })),
            None => Some((f, f)),
        }
    }
}

pub fn compute_fret_range(notes: &Vec<TimelineNote>, active: &Vec<usize>) -> (r: Option<FretRange>)
    requires
        valid_indices(notes@, active@),
    ensures
        r == spec_compute_fret_range(notes@, active@),
{
    let mut acc: Option<(i32, i32)> = None;
    let mut k: usize = 0;
    while k < active.len()
        invariant
            k <= active@.len(),
            valid_indices(notes@, active@),
            acc == fret_bounds(notes@, active@, k as int),
        decreases active.len() - k,
    {
        let n = &notes[active[k]];
        let ghost fs = frets_of(*n);
        let ghost start = acc;
        acc = take_fret_exec(acc, n.fret);
        assert(fs[0] == n.fret);
        assert(take_frets(start, fs, 0) == start);
        assert(take_frets(start, fs, 1) == take_fret(take_frets(start, fs, 0), fs[0]));
        let mut j: usize = 0;
        while j < n.additional_frets.len()
            invariant
                j <= n.additional_frets@.len(),
                fs == frets_of(*n),
                acc == take_frets(start, fs, j + 1),
            decreases n.additional_frets.len() - j,
        {
            assert(fs[j + 1] == n.additional_frets@[j as int]);
            acc = take_fret_exec(acc, n.additional_frets[j]);
            j = j + 1;
        }
        k = k + 1;
    }
    match acc {
        Some((lo, hi)) => Some(FretRange::new(lo as i64, hi as i64)),
        None => None,
    }
}

pub open spec fn fret_marker_key(n: TimelineNote, role: FretMarkerRole) -> FretMarkerKey {
    FretMarkerKey { note: note_key(n), role }
}

/// Adds the marker of fret `f` of note `n` in role `role`, unless `f` is
/// negative.
pub open spec fn place(acc: Seq<Primitive>, n: TimelineNote, f: i32, role: FretMarkerRole, primary: bool, r: FretRange, count: usize) -> Seq<Primitive> {
    if f < 0 {
        acc
    } else {
        acc.push(Primitive::FretMarker {
            key: fret_marker_key(n, role),
            left: spec_fret_left(f as int, r) as i64,
            top: spec_string_position(n.string_index as int, count as int) as u64,
            primary,
        })
    }
}

pub open spec fn place_extras(acc: Seq<Primitive>, n: TimelineNote, k: int, r: FretRange, count: usize) -> Seq<Primitive>
    decreases k,
{
    if k <= 0 {
        acc
    } else {
        let f = n.additional_frets@[k - 1];
        place(place_extras(acc, n, k - 1, r, count), n, f, FretMarkerRole::Additional(f), false, r, count)
    }
}

/// How far a slide has gone at `t`, in parts per million.
pub open spec fn slide_progress(n: TimelineNote, t: u64) -> int {
    if t <= n.time {
        0
    } else if t - n.time >= n.sustain {
        FULL as int
    } else {
        (t - n.time) * FULL / (n.sustain as int)
    }
}

/// `(b - a) * p / FULL`, rounded toward `a`.
pub open spec fn slide_offset(a: int, b: int, p: int) -> int {
    if b >= a {
        (b - a) * p / (FULL as int)
    } else {
        -((a - b) * p / (FULL as int))
    }
}

/// The bar of a slide in progress: from the note's fret toward its target,
/// as far as the slide has gone.
pub open spec fn slide_bar(n: TimelineNote, t: u64, r: FretRange, count: usize) -> Seq<Primitive> {
    if n.spec_is_slide() && n.sustain > 0 && slide_progress(n, t) > 0 {
        let start = spec_fret_left(n.fret as int, r);
        let target = spec_fret_left(n.spec_primary_slide_target()->0 as int, r);
        let off = slide_offset(start, target, slide_progress(n, t));
        let left = if off < 0 { start + off } else { start };
        let width = if off < 0 { -off } else { off };
        if width > 0 {
            seq![Primitive::FretSlideBar {
                key: fret_marker_key(n, FretMarkerRole::SlideBar),
                left: left as i64,
                width: width as i64,
                top: spec_string_position(n.string_index as int, count as int) as u64,
            }]
        } else {
            Seq::empty()
        }
    } else {
        Seq::empty()
    }
}

/// The markers of one note: its primary fret, each additional fret, and
/// the bar of a slide in progress; one per (note, role).
pub open spec fn note_fret_markers(acc: Seq<Primitive>, n: TimelineNote, t: u64, r: FretRange, count: usize) -> Seq<Primitive> {
    if n.string_index >= count {
        acc
    } else {
        let a = place(acc, n, n.fret, FretMarkerRole::Primary, true, r, count);
        place_extras(a, n, n.additional_frets@.len() as int, r, count) + slide_bar(n, t, r, count)
    }
}

/// The fret markers of the first `k` listed notes.
pub open spec fn fret_markers(notes: Seq<TimelineNote>, active: Seq<usize>, k: int, t: u64, r: FretRange, count: usize) -> Seq<Primitive>
    decreases k,
{
    if k <= 0 {
        Seq::empty()
    } else {
        note_fret_markers(fret_markers(notes, active, k - 1, t, r, count), notes[active[k - 1] as int], t, r, count)
    }
}

pub open spec fn range_fits(r: FretRange) -> bool {
    -0x1_0000_0000 <= r.start <= r.end <= 0x1_0000_0000
}

fn place_exec(
    out: &mut Vec<Primitive>,
    n: &TimelineNote,
    f: i32,
    role: FretMarkerRole,
    primary: bool,
    r: &FretRange,
    count: usize,
)
    requires
        range_fits(*r),
        n.string_index < count,
    ensures
        final(out)@ == place(old(out)@, *n, f, role, primary, *r, count),
{
    if f < 0 {
        return;
    }
    let left = fret_left_percent(f as i64, r);
    let top = string_position_percent(n.string_index, count);
    out.push(Primitive::FretMarker { key: FretMarkerKey { note: NoteKey::new(n), role }, left, top, primary });
}

/// A fraction of `s`, scaled to parts per million, is at most `FULL`.
proof fn lemma_scaled_fraction(x: int, s: int)
    requires
        0 <= x <= s,
        0 < s,
    ensures
        0 <= x * FULL / s <= FULL,
{
    assert(x * FULL <= s * FULL) by (nonlinear_arith)
        requires
            x <= s,
    ;
    assert(0 <= x * FULL) by (nonlinear_arith)
        requires
            0 <= x,
    ;
    vstd::arithmetic::div_mod::lemma_div_is_ordered(x * FULL, s * FULL, s);
    vstd::arithmetic::div_mod::lemma_div_multiples_vanish(FULL as int, s);
    assert(s * FULL == FULL * s) by (nonlinear_arith);
    vstd::arithmetic::div_mod::lemma_div_pos_is_pos(x * FULL, s);
}

fn slide_progress_exec(n: &TimelineNote, t: u64) -> (p: u64)
    requires
        n.sustain > 0,
    ensures
        p == slide_progress(*n, t),
        p <= FULL,
{
    if t <= n.time {
        0
    } else if t - n.time >= n.sustain {
        FULL
    } else {
        let x = t - n.time;
        proof {
            lemma_scaled_fraction(x as int, n.sustain as int);
        }
        assert(x * FULL <= 0xffff_ffff_ffff_ffff * FULL) by (nonlinear_arith)
            requires
                x <= 0xffff_ffff_ffff_ffff,
        ;
        let q = (x as u128) * (FULL as u128) / (n.sustain as u128);
        q as u64
    }
}

fn slide_offset_exec(a: i64, b: i64, p: u64) -> (r: i64)
    requires
        -0x10_0000_0000 * FULL <= a <= 0x10_0000_0000 * FULL,
        -0x10_0000_0000 * FULL <= b <= 0x10_0000_0000 * FULL,
        p <= FULL,
    ensures
        r == slide_offset(a as int, b as int, p as int),
        -0x20_0000_0000 * FULL <= r <= 0x20_0000_0000 * FULL,
{
    if b >= a {
        let x = (b - a) as u128;
        proof {
            lemma_scaled_fraction(p as int, FULL as int);
        }
        assert(x * p <= 0x20_0000_0000 * FULL * FULL) by (nonlinear_arith)
            requires
                0 <= x <= 0x20_0000_0000 * FULL,
                p <= FULL,
        ;
        assert(x * p / (FULL as int) <= x) by (nonlinear_arith)
            requires
                0 <= x,
                p <= FULL,
        ;
        ((x * (p as u128)) / (FULL as u128)) as i64
    } else {
        let x = (a - b) as u128;
        assert(x * p <= 0x20_0000_0000 * FULL * FULL) by (nonlinear_arith)
            requires
                0 <= x <= 0x20_0000_0000 * FULL,
                p <= FULL,
        ;
        assert(x * p / (FULL as int) <= x) by (nonlinear_arith)
            requires
                0 <= x,
                p <= FULL,
        ;
        -(((x * (p as u128)) / (FULL as u128)) as i64)
    }
}

fn slide_bar_exec(out: &mut Vec<Primitive>, n: &TimelineNote, t: u64, r: &FretRange, count: usize)
    requires
        range_fits(*r),
        n.string_index < count,
    ensures
        final(out)@ == old(out)@ + slide_bar(*n, t, *r, count),
{
    if !(n.is_slide() && n.sustain > 0) {
        assert(old(out)@ + Seq::<Primitive>::empty() =~= old(out)@);
        return;
    }
    let p = slide_progress_exec(n, t);
    if p == 0 {
        assert(old(out)@ + Seq::<Primitive>::empty() =~= old(out)@);
        return;
    }
    let target = match n.primary_slide_target() {
        Some(x) => x,
        None => 0,
    };
    let start = fret_left_percent(n.fret as i64, r);
    let goal = fret_left_percent(target as i64, r);
    let off = slide_offset_exec(start, goal, p);
    let left = if off < 0 { start + off } else { start };
    let width = if off < 0 { -off } else { off };
    if width > 0 {
        out.push(Primitive::FretSlideBar {
            key: FretMarkerKey::slide_bar(n),
            left,
            width,
            top: string_position_percent(n.string_index, count),
        });
    } else {
        assert(old(out)@ + Seq::<Primitive>::empty() =~= old(out)@);
    }
}

/// The fret markers for the listed notes, with fret range `range` and
/// `count` strings, at playback time `t`.
pub fn desired_fret_markers(
    notes: &Vec<TimelineNote>,
    active: &Vec<usize>,
    t: u64,
    range: &FretRange,
    count: usize,
) -> (r: Vec<Primitive>)
    requires
        valid_indices(notes@, active@),
        range_fits(*range),
    ensures
        r@ == fret_markers(notes@, active@, active@.len() as int, t, *range, count),
{
    let mut out: Vec<Primitive> = Vec::new();
    let mut k: usize = 0;
    while k < active.len()
        invariant
            k <= active@.len(),
            valid_indices(notes@, active@),
            range_fits(*range),
            out@ == fret_markers(notes@, active@, k as int, t, *range, count),
        decreases active.len() - k,
    {
        let n = &notes[active[k]];
        if n.string_index < count {
            place_exec(&mut out, n, n.fret, FretMarkerRole::Primary, true, range, count);
            let ghost acc1 = out@;
            let mut j: usize = 0;
            while j < n.additional_frets.len()
                invariant
                    j <= n.additional_frets@.len(),
                    range_fits(*range),
                    n.string_index < count,
                    out@ == place_extras(acc1, *n, j as int, *range, count),
                decreases n.additional_frets.len() - j,
            {
                let f = n.additional_frets[j];
                place_exec(&mut out, n, f, FretMarkerRole::Additional(f), false, range, count);
                j = j + 1;
            }
            slide_bar_exec(&mut out, n, t, range, count);
        }
        k = k + 1;
    }
    out
}

/// State of the fret panel between frames.
pub struct FretView {
    /// Keys of the markers on the panel.
    pub rendered: Vec<PrimitiveKey>,
    /// Keys of the notes the panel last showed.
    pub signature: Vec<NoteKey>,
    pub range: Option<FretRange>,
    pub zoom: Option<FretZoomAnimation>,
    /// Number of fret lines in the grid (0 when there is none).
    pub grid_lines: u64,
}

/// One frame of the fret panel.
pub struct FretFrame {
    /// Every marker to show, with its placement.
    pub markers: Vec<Primitive>,
    /// Markers new this frame.
    pub created: Vec<Primitive>,
    /// Markers gone this frame.
    pub destroyed: Vec<PrimitiveKey>,
    pub range: Option<FretRange>,
    /// The grid was rebuilt this frame (its line count changed).
    pub grid_rebuilt: bool,
    /// Panel scale, in parts per million.
    pub scale: u64,
}

fn same_key_set(a: &Vec<NoteKey>, b: &Vec<NoteKey>) -> (r: bool)
    ensures
        r == (a@.to_set() == b@.to_set()),
{
    let mut i: usize = 0;
    while i < a.len()
        invariant
            i <= a@.len(),
            forall|j: int| 0 <= j < i ==> b@.contains(#[trigger] a@[j]),
        decreases a.len() - i,
    {
        let mut found: bool = false;
        let mut m: usize = 0;
        while m < b.len()
            invariant
                m <= b@.len(),
                i < a@.len(),
                found ==> b@.contains(a@[i as int]),
                !found ==> forall|q: int| 0 <= q < m ==> b@[q] != a@[i as int],
            decreases b.len() - m,
        {
            if b[m] == a[i] {
                found = true;
                assert(b@[m as int] == a@[i as int]);
            }
            m = m + 1;
        }
        if !found {
            assert(!b@.to_set().contains(a@[i as int]));
            assert(a@.to_set().contains(a@[i as int]));
            return false;
        }
        i = i + 1;
    }
    let mut i2: usize = 0;
    while i2 < b.len()
        invariant
            i2 <= b@.len(),
            forall|j: int| 0 <= j < a@.len() ==> b@.contains(#[trigger] a@[j]),
            forall|j: int| 0 <= j < i2 ==> a@.contains(#[trigger] b@[j]),
        decreases b.len() - i2,
    {
        let mut found: bool = false;
        let mut m: usize = 0;
        while m < a.len()
            invariant
                m <= a@.len(),
                i2 < b@.len(),
                found ==> a@.contains(b@[i2 as int]),
                !found ==> forall|q: int| 0 <= q < m ==> a@[q] != b@[i2 as int],
            decreases a.len() - m,
        {
            if a[m] == b[i2] {
                found = true;
                assert(a@[m as int] == b@[i2 as int]);
            }
            m = m + 1;
        }
        if !found {
            assert(!a@.to_set().contains(b@[i2 as int]));
            assert(b@.to_set().contains(b@[i2 as int]));
            return false;
        }
        i2 = i2 + 1;
    }
    proof {
        assert forall|k: NoteKey| #[trigger] a@.to_set().contains(k) <==> b@.to_set().contains(k) by {
            if a@.contains(k) {
                let j = choose|j: int| 0 <= j < a@.len() && a@[j] == k;
                assert(b@.contains(a@[j]));
            }
            if b@.contains(k) {
                let j = choose|j: int| 0 <= j < b@.len() && b@[j] == k;
                assert(a@.contains(b@[j]));
            }
        }
        assert(a@.to_set() =~= b@.to_set());
    }
    true
}

/// What one frame shows on the fret panel for the active notes `active`:
/// nothing when there are no strings.
pub open spec fn fret_frame_shows(
    notes: Seq<TimelineNote>,
    active: Seq<usize>,
    t: u64,
    count: usize,
    range: Option<FretRange>,
    markers: Seq<Primitive>,
) -> bool {
    if count == 0 {
        range is None && markers.len() == 0
    } else {
        match spec_compute_fret_range(notes, active) {
            Some(r) => range == Some(r) && markers == fret_markers(notes, active, active.len() as int, t, r, count),
            None => range is None && markers.len() == 0,
        }
    }
}

/// The keys of the listed notes.
pub open spec fn active_keys(notes: Seq<TimelineNote>, active: Seq<usize>) -> Set<NoteKey> {
    active.map_values(|i: usize| note_key(notes[i as int])).to_set()
}

/// The panel scale after a frame of `delta`: a new zoom-in when the set of
/// active notes changed, else the running zoom advanced, else full size.
pub open spec fn zoom_rule(
    old_signature: Set<NoteKey>,
    old_zoom: Option<FretZoomAnimation>,
    keys: Set<NoteKey>,
    any_active: bool,
    delta: u64,
    scale: u64,
) -> bool {
    if any_active && old_signature != keys {
        scale == spec_zoom_scale(spec_zoom_progress(delta as int))
    } else {
        match old_zoom {
            Some(z) => scale == spec_zoom_scale(spec_zoom_progress(z.elapsed + delta)),
            None => scale == FULL,
        }
    }
}

/// The zoom kept for the next frame: restarted when the active set
/// changed, then advanced by `delta` and dropped once finished.
pub open spec fn zoom_after(
    old_signature: Set<NoteKey>,
    old_zoom: Option<FretZoomAnimation>,
    keys: Set<NoteKey>,
    any_active: bool,
    delta: u64,
) -> Option<FretZoomAnimation> {
    let started = if any_active && old_signature != keys { Some(FretZoomAnimation { elapsed: 0 }) } else { old_zoom };
    match started {
        Some(z) => if z.elapsed + delta >= FRET_ZOOM_DURATION {
            None
        } else {
            Some(FretZoomAnimation { elapsed: (z.elapsed + delta) as u64 })
        },
        None => None,
    }
}

impl FretView {
    pub open spec fn wf(&self) -> bool {
        &&& self.rendered@.no_duplicates()
        &&& match self.zoom {
            Some(z) => z.elapsed < FRET_ZOOM_DURATION,
            None => true,
        }
    }

    pub fn new() -> (r: FretView)
        ensures
            r.wf(),
            r.rendered@.len() == 0,
            r.signature@.len() == 0,
            r.range is None,
            r.zoom is None,
            r.grid_lines == 0,
    {
        FretView { rendered: Vec::new(), signature: Vec::new(), range: None, zoom: None, grid_lines: 0 }
    }

    /// One frame of the fret panel at playback time `t`.
    pub fn update(&mut self, notes: &Vec<TimelineNote>, string_count: usize, t: u64, delta: u64) -> (frame: FretFrame)
        requires
            old(self).wf(),
            notes_fit(notes@),
            t <= TIME_LIMIT,
        ensures
            final(self).wf(),
            exists|active: Seq<usize>| {
                &&& is_active_list(notes@, t, active)
                &&& fret_frame_shows(notes@, active, t, string_count, frame.range, frame.markers@)
                &&& zoom_rule(old(self).signature@.to_set(), old(self).zoom, active_keys(notes@, active), active.len() > 0 && string_count > 0, delta, frame.scale)
                &&& final(self).zoom == zoom_after(old(self).signature@.to_set(), old(self).zoom, active_keys(notes@, active), active.len() > 0 && string_count > 0, delta)
                &&& final(self).signature@.to_set() == (if frame.range is Some { active_keys(notes@, active) } else { Set::<NoteKey>::empty() })
            },
            final(self).grid_lines == match frame.range {
                Some(r) => (r.spec_span() + 1) as u64,
                None => 0,
            },
            frame.grid_rebuilt == (final(self).grid_lines != old(self).grid_lines),
            final(self).range == frame.range,
            final(self).rendered@.to_set() == keys_of(frame.markers@),
            keys_seq(frame.created@).to_set() == keys_of(frame.markers@).difference(old(self).rendered@.to_set()),
            frame.destroyed@.to_set() == old(self).rendered@.to_set().difference(keys_of(frame.markers@)),
            FRET_ZOOM_START_SCALE <= frame.scale <= FULL,
    {
        let active = collect_active_notes(notes, t);
        let mut created: Vec<Primitive> = Vec::new();
        let mut destroyed: Vec<PrimitiveKey> = Vec::new();
        let mut range: Option<FretRange> = None;
        let mut markers: Vec<Primitive> = Vec::new();
        let mut rebuilt: bool = false;
        if active.len() > 0 && string_count > 0 {
            let mut sig: Vec<NoteKey> = Vec::new();
            let mut k: usize = 0;
            while k < active.len()
                invariant
                    k <= active@.len(),
                    is_active_list(notes@, t, active@),
                    sig@ == active@.subrange(0, k as int).map_values(|i: usize| note_key(notes@[i as int])),
                decreases active.len() - k,
            {
                sig.push(NoteKey::new(&notes[active[k]]));
                proof {
                    assert(active@.subrange(0, k + 1).map_values(|i: usize| note_key(notes@[i as int]))
                        =~= active@.subrange(0, k as int).map_values(|i: usize| note_key(notes@[i as int])).push(note_key(notes@[active@[k as int] as int])));
                }
                k = k + 1;
            }
            assert(active@.subrange(0, active@.len() as int) =~= active@);
            if !same_key_set(&sig, &self.signature) {
                self.signature = sig;
                self.zoom = Some(FretZoomAnimation::new());
            }
            range = compute_fret_range(notes, &active);
        }
        match range {
            Some(r) => {
                self.range = Some(r);
                let lines = r.span() + 1;
                rebuilt = self.grid_lines != lines;
                self.grid_lines = lines;
                markers = desired_fret_markers(notes, &active, t, &r, string_count);
            },
            None => {
                self.signature = Vec::new();
                self.range = None;
                rebuilt = self.grid_lines != 0;
                self.grid_lines = 0;
                assert(self.signature@.to_set() =~= Set::<NoteKey>::empty());
                assert(fret_bounds(notes@, active@, 0) is None);
            },
        }
        reconcile_row(&mut self.rendered, &markers, false, &mut created, &mut destroyed);
        proof {
            assert(created@.subrange(0, created@.len() as int) =~= created@);
            assert(destroyed@.subrange(0, destroyed@.len() as int) =~= destroyed@);
            assert(is_active_list(notes@, t, active@));
        }
        let scale = progress_fret_zoom_animation(&mut self.zoom, delta);
        FretFrame { markers, created, destroyed, range, grid_rebuilt: rebuilt, scale }
    }
}

} // verus!
