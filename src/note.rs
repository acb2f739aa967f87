//! Notes as the timeline shows them, and the content keys that give each
//! visual primitive its identity across frames.
use vstd::prelude::*;
use crate::chart::{Techniques, TIME_LIMIT};

verus! {

/// A note of the merged stream: onset and sustain in microseconds, the
/// string it sits on, its primary fret, its techniques, and the further
/// frets it reaches (slide targets, anchor, bend target).
pub struct TimelineNote {
    pub time: u64,
    pub sustain: u64,
    pub string_index: usize,
    pub fret: i32,
    pub techniques: Vec<Techniques>,
    pub additional_frets: Vec<i32>,
    pub slide_target: Option<i32>,
    pub slide_unpitched_target: Option<i32>,
}

/// The content of a `TimelineNote`, with its lists as sequences.
pub struct NoteView {
    pub time: u64,
    pub sustain: u64,
    pub string_index: usize,
    pub fret: i32,
    pub techniques: Seq<Techniques>,
    pub additional_frets: Seq<i32>,
    pub slide_target: Option<i32>,
    pub slide_unpitched_target: Option<i32>,
}

impl View for TimelineNote {
    type V = NoteView;

    open spec fn view(&self) -> NoteView {
        NoteView {
            time: self.time,
            sustain: self.sustain,
            string_index: self.string_index,
            fret: self.fret,
            techniques: self.techniques@,
            additional_frets: self.additional_frets@,
            slide_target: self.slide_target,
            slide_unpitched_target: self.slide_unpitched_target,
        }
    }
}

impl TimelineNote {
    pub open spec fn well_formed(&self) -> bool {
        self.time + self.sustain <= TIME_LIMIT
    }

    pub open spec fn end(&self) -> int {
        self.time + self.sustain
    }

    pub open spec fn spec_primary_slide_target(&self) -> Option<i32> {
        match self.slide_target {
            Some(t) => Some(t),
            None => self.slide_unpitched_target,
        }
    }

    pub open spec fn spec_is_slide(&self) -> bool {
        self.techniques@.contains(Techniques::Slide) && self.spec_primary_slide_target() is Some
    }

    /// The pitched slide target, or else the unpitched one.
    pub fn primary_slide_target(&self) -> (r: Option<i32>)
        ensures
            r == self.spec_primary_slide_target(),
    {
        match self.slide_target {
            Some(t) => Some(t),
            None => self.slide_unpitched_target,
        }
    }

    /// The note carries the slide technique and has a target to slide to.
    pub fn is_slide(&self) -> (r: bool)
        ensures
            r == self.spec_is_slide(),
    {
        let mut has: bool = false;
        let mut i: usize = 0;
        while i < self.techniques.len()
            invariant
                i <= self.techniques@.len(),
                has == self.techniques@.subrange(0, i as int).contains(Techniques::Slide),
            decreases self.techniques.len() - i,
        {
            proof {
                let sub = self.techniques@.subrange(0, i + 1);
                assert(sub.contains(Techniques::Slide) == (
                    self.techniques@.subrange(0, i as int).contains(Techniques::Slide)
                    || self.techniques@[i as int] == Techniques::Slide)) by {
                    if sub.contains(Techniques::Slide) {
                        let w = choose|w: int| 0 <= w < sub.len() && sub[w] == Techniques::Slide;
                        if w < i {
                            assert(self.techniques@.subrange(0, i as int)[w] == Techniques::Slide);
                        }
                    }
                    if self.techniques@[i as int] == Techniques::Slide {
                        assert(sub[i as int] == Techniques::Slide);
                    }
                    if self.techniques@.subrange(0, i as int).contains(Techniques::Slide) {
                        let w = choose|w: int| 0 <= w < i && self.techniques@.subrange(0, i as int)[w] == Techniques::Slide;
                        assert(sub[w] == Techniques::Slide);
                    }
                }
            }
            if self.techniques[i] == Techniques::Slide {
                has = true;
            }
            i = i + 1;
        }
        proof {
            assert(self.techniques@.subrange(0, self.techniques@.len() as int) =~= self.techniques@);
        }
        has && self.primary_slide_target().is_some()
    }
}

pub open spec fn technique_hash(ts: Seq<Techniques>, n: int) -> u64
    decreases n,
{
    if n <= 0 {
        0
    } else {
        technique_hash(ts, n - 1).wrapping_mul(31).wrapping_add(ts[n - 1].spec_code())
    }
}

/// A fret value shifted by 64 and taken modulo 2^64.
pub open spec fn fret_code(f: i32) -> u64 {
    (f as i64 + 64) as u64
}

pub open spec fn extra_hash(frets: Seq<i32>, n: int) -> u64
    decreases n,
{
    if n <= 0 {
        0
    } else {
        extra_hash(frets, n - 1).wrapping_mul(41).wrapping_add(fret_code(frets[n - 1]))
    }
}

pub open spec fn slide_hash(target: Option<i32>, unpitched: Option<i32>) -> u64 {
    let h: u64 = match target {
        Some(t) => 0u64.wrapping_mul(53).wrapping_add(fret_code(t)),
        None => 0,
    };
    match unpitched {
        Some(t) => h.wrapping_mul(67).wrapping_add(fret_code(t)),
        None => h,
    }
}

/// The digest of a note's techniques, additional frets and slide targets.
pub open spec fn metadata_hash(n: TimelineNote) -> u64 {
    let m = technique_hash(n.techniques@, n.techniques@.len() as int).wrapping_mul(131).wrapping_add(
        extra_hash(n.additional_frets@, n.additional_frets@.len() as int),
    );
    m.wrapping_mul(73).wrapping_add(slide_hash(n.slide_target, n.slide_unpitched_target))
}

/// Identity of a note for diffing: two notes with equal keys are one
/// visual object.
#[derive(Clone, Copy, Debug, PartialEq, Eq, Structural)]
pub struct NoteKey {
    pub time: u64,
    pub string_index: usize,
    pub fret: i32,
    pub metadata_hash: u64,
}

pub open spec fn note_key(n: TimelineNote) -> NoteKey {
    NoteKey {
        time: n.time,
        string_index: n.string_index,
        fret: n.fret,
        metadata_hash: metadata_hash(n),
    }
}

impl NoteKey {
    pub fn new(note: &TimelineNote) -> (r: NoteKey)
        ensures
            r == note_key(*note),
    {
        let mut th: u64 = 0;
        let mut i: usize = 0;
        while i < note.techniques.len()
            invariant
                i <= note.techniques@.len(),
                th == technique_hash(note.techniques@, i as int),
            decreases note.techniques.len() - i,
        {
            th = th.wrapping_mul(31).wrapping_add(note.techniques[i].code());
            i = i + 1;
        }
        let mut eh: u64 = 0;
        let mut j: usize = 0;
        while j < note.additional_frets.len()
            invariant
                j <= note.additional_frets@.len(),
                eh == extra_hash(note.additional_frets@, j as int),
            decreases note.additional_frets.len() - j,
        {
            eh = eh.wrapping_mul(41).wrapping_add((note.additional_frets[j] as i64 + 64) as u64);
            j = j + 1;
        }
        let mut sh: u64 = 0;
        if let Some(t) = note.slide_target {
            sh = sh.wrapping_mul(53).wrapping_add((t as i64 + 64) as u64);
        }
        if let Some(t) = note.slide_unpitched_target {
            sh = sh.wrapping_mul(67).wrapping_add((t as i64 + 64) as u64);
        }
        let m = th.wrapping_mul(131).wrapping_add(eh);
        NoteKey {
            time: note.time,
            string_index: note.string_index,
            fret: note.fret,
            metadata_hash: m.wrapping_mul(73).wrapping_add(sh),
        }
    }
}

/// Identity of a sustain or slide segment: the note, and the block the
/// segment is drawn in (a note crossing a block boundary has one segment
/// per block).
#[derive(Clone, Copy, Debug, PartialEq, Eq, Structural)]
pub struct SustainSegmentKey {
    pub note: NoteKey,
    pub block_index: u64,
}

impl SustainSegmentKey {
    pub fn new(note: &TimelineNote, block_index: u64) -> (r: SustainSegmentKey)
        ensures
            r == (SustainSegmentKey { note: note_key(*note), block_index }),
    {
        SustainSegmentKey { note: NoteKey::new(note), block_index }
    }
}

/// What a fret marker shows of its note.
#[derive(Clone, Copy, Debug, PartialEq, Eq, Structural)]
pub enum FretMarkerRole {
    Primary,
    Additional(i32),
    SlideBar,
}

#[derive(Clone, Copy, Debug, PartialEq, Eq, Structural)]
pub struct FretMarkerKey {
    pub note: NoteKey,
    pub role: FretMarkerRole,
}

impl FretMarkerKey {
    pub fn primary(note: &TimelineNote) -> (r: FretMarkerKey)
        ensures
            r == (FretMarkerKey { note: note_key(*note), role: FretMarkerRole::Primary }),
    {
        FretMarkerKey { note: NoteKey::new(note), role: FretMarkerRole::Primary }
    }

    pub fn additional(note: &TimelineNote, fret: i32) -> (r: FretMarkerKey)
        ensures
            r == (FretMarkerKey { note: note_key(*note), role: FretMarkerRole::Additional(fret) }),
    {
        FretMarkerKey { note: NoteKey::new(note), role: FretMarkerRole::Additional(fret) }
    }

    pub fn slide_bar(note: &TimelineNote) -> (r: FretMarkerKey)
        ensures
            r == (FretMarkerKey { note: note_key(*note), role: FretMarkerRole::SlideBar }),
    {
        FretMarkerKey { note: NoteKey::new(note), role: FretMarkerRole::SlideBar }
    }
}

} // verus!
