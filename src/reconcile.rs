//! Per-block, per-string reconciliation of the visual primitives: what a
//! block should show is computed from the notes, and diffed against what
//! it already shows.
use vstd::prelude::*;
use crate::note::{FretMarkerKey, NoteKey, SustainSegmentKey, TimelineNote, note_key};
use crate::tempo::MAX_BLOCK_DURATION;

verus! {

/// Positions within a block are in parts per million of its width.
pub const FULL: u64 = 1_000_000;

/// Identity of a primitive within a row.
#[derive(Clone, Copy, Debug, PartialEq, Eq, Structural)]
pub enum PrimitiveKey {
    Note(NoteKey),
    Sustain(SustainSegmentKey),
    Slide(SustainSegmentKey),
    Fret(FretMarkerKey),
}

/// A primitive with what the renderer needs to draw it. Positions are
/// parts per million of the block width.
#[derive(Clone, Copy, Debug, PartialEq, Eq, Structural)]
#[allow(inconsistent_fields)]
pub enum Primitive {
    /// A note marker centred at `left`, labelled with `fret`.
    NoteMarker { key: NoteKey, left: u64, fret: i32 },
    /// A sustain bar from `left`, `width` wide.
    SustainSegment { key: SustainSegmentKey, left: u64, width: u64 },
    /// A slide bar; in the block where the sustain ends (`terminal`) it
    /// carries an arrow and a marker for `target_fret` at `end`.
    SlideSegment {
        key: SustainSegmentKey,
        left: u64,
        width: u64,
        terminal: bool,
        end: u64,
        target_fret: i32,
    },
    /// A fret-panel marker centred at (`left`, `top`), parts per million of
    /// the panel; secondary markers are drawn smaller.
    FretMarker { key: FretMarkerKey, left: i64, top: u64, primary: bool },
    /// The growing bar of a slide in progress on the fret panel.
    FretSlideBar { key: FretMarkerKey, left: i64, width: i64, top: u64 },
}

impl Primitive {
    pub open spec fn spec_key(self) -> PrimitiveKey {
        match self {
            Primitive::NoteMarker { key, .. } => PrimitiveKey::Note(key),
            Primitive::SustainSegment { key, .. } => PrimitiveKey::Sustain(key),
            Primitive::SlideSegment { key, .. } => PrimitiveKey::Slide(key),
            Primitive::FretMarker { key, .. } => PrimitiveKey::Fret(key),
            Primitive::FretSlideBar { key, .. } => PrimitiveKey::Fret(key),
        }
    }

    pub fn key(&self) -> (r: PrimitiveKey)
        ensures
            r == self.spec_key(),
    {
        match self {
            Primitive::NoteMarker { key, .. } => PrimitiveKey::Note(*key),
            Primitive::SustainSegment { key, .. } => PrimitiveKey::Sustain(*key),
            Primitive::SlideSegment { key, .. } => PrimitiveKey::Slide(*key),
            Primitive::FretMarker { key, .. } => PrimitiveKey::Fret(*key),
            Primitive::FretSlideBar { key, .. } => PrimitiveKey::Fret(*key),
        }
    }
}

/// Blocks whose `(index + 1) * duration` stays within this bound can be
/// laid out without overflow.
pub const BLOCK_SPAN_LIMIT: u64 = 12_000_000_000_000_000_000;

/// Where `t` falls within a block starting at `start`, in parts per million.
pub open spec fn position(t: int, start: int, d: int) -> int {
    (t - start) * FULL / d
}

pub open spec fn min_int(a: int, b: int) -> int {
    if a <= b { a } else { b }
}

pub open spec fn max_int(a: int, b: int) -> int {
    if a >= b { a } else { b }
}

/// The primitives a note contributes to block `b` of duration `d`: a
/// marker when its onset lies in `[block start, block end)`, whatever its
/// sustain, and a sustain or slide segment for the part of its sounding
/// interval inside the block. A note without a valid primary fret
/// contributes nothing.
pub open spec fn note_primitives(n: TimelineNote, b: u64, d: u64) -> Seq<Primitive> {
    let bs = b * d;
    let be = bs + d;
    let start = n.time as int;
    let end = n.time + n.sustain;
    let marker: Seq<Primitive> = if bs <= start < be {
        seq![Primitive::NoteMarker { key: note_key(n), left: position(start, bs, d as int) as u64, fret: n.fret }]
    } else {
        Seq::empty()
    };
    let os = max_int(start, bs);
    let oe = min_int(end, be);
    let left = position(os, bs, d as int);
    let right = position(oe, bs, d as int);
    let seg_key = SustainSegmentKey { note: note_key(n), block_index: b };
    if n.fret < 0 {
        Seq::empty()
    } else if oe > os && right > left {
        if n.spec_is_slide() {
            marker.push(Primitive::SlideSegment {
                key: seg_key,
                left: left as u64,
                width: (right - left) as u64,
                terminal: end <= be,
                end: right as u64,
                target_fret: n.spec_primary_slide_target()->0,
            })
        } else {
            marker.push(Primitive::SustainSegment { key: seg_key, left: left as u64, width: (right - left) as u64 })
        }
    } else {
        marker
    }
}

/// The primitives that row `s` of block `b` should show, from the first
/// `k` notes.
pub open spec fn desired_row(notes: Seq<TimelineNote>, k: int, b: u64, d: u64, s: usize) -> Seq<Primitive>
    decreases k,
{
    if k <= 0 {
        Seq::empty()
    } else {
        let prev = desired_row(notes, k - 1, b, d, s);
        if notes[k - 1].string_index == s {
            prev + note_primitives(notes[k - 1], b, d)
        } else {
            prev
        }
    }
}

pub open spec fn desired(notes: Seq<TimelineNote>, b: u64, d: u64, s: usize) -> Seq<Primitive> {
    desired_row(notes, notes.len() as int, b, d, s)
}

pub open spec fn keys_of(ps: Seq<Primitive>) -> Set<PrimitiveKey> {
    Set::new(|k: PrimitiveKey| exists|i: int| 0 <= i < ps.len() && (#[trigger] ps[i]).spec_key() == k)
}

pub open spec fn notes_fit(notes: Seq<TimelineNote>) -> bool {
    forall|i: int| 0 <= i < notes.len() ==> (#[trigger] notes[i]).well_formed()
}

/// Computes the primitives of one note for block `b`.
pub fn primitives_for_note(n: &TimelineNote, b: u64, d: u64, out: &mut Vec<Primitive>)
    requires
        n.well_formed(),
        0 < d <= MAX_BLOCK_DURATION,
        (b + 1) * d <= BLOCK_SPAN_LIMIT,
    ensures
        final(out)@ == old(out)@ + note_primitives(*n, b, d),
{
    assert(b * d + d == (b + 1) * d) by (nonlinear_arith);
    let bs = b * d;
    let be = bs + d;
    let start = n.time;
    let end = n.time + n.sustain;
    if n.fret < 0 {
        assert(old(out)@ + Seq::<Primitive>::empty() =~= old(out)@);
        return;
    }
    let ghost base = out@;
    if start >= bs && start < be {
        assert((start - bs) * FULL <= MAX_BLOCK_DURATION * FULL) by (nonlinear_arith)
            requires
                start - bs <= d <= MAX_BLOCK_DURATION,
        ;
        let left = (start - bs) * FULL / d;
        out.push(Primitive::NoteMarker { key: NoteKey::new(n), left, fret: n.fret });
    }
    if end <= bs || start >= be {
        assert(out@ =~= base + note_primitives(*n, b, d));
        return;
    }
    let os = if start > bs { start } else { bs };
    let oe = if end < be { end } else { be };
    assert((os - bs) * FULL <= MAX_BLOCK_DURATION * FULL && (oe - bs) * FULL <= MAX_BLOCK_DURATION * FULL) by (nonlinear_arith)
        requires
            os - bs <= d <= MAX_BLOCK_DURATION,
            oe - bs <= d,
    ;
    let left = (os - bs) * FULL / d;
    let right = (oe - bs) * FULL / d;
    if oe > os && right > left {
        let seg_key = SustainSegmentKey::new(n, b);
        if n.is_slide() {
            let target = match n.primary_slide_target() {
                Some(t) => t,
                None => 0,
            };
            out.push(Primitive::SlideSegment {
                key: seg_key,
                left,
                width: right - left,
                terminal: end <= be,
                end: right,
                target_fret: target,
            });
        } else {
            out.push(Primitive::SustainSegment { key: seg_key, left, width: right - left });
        }
    }
    assert(out@ =~= base + note_primitives(*n, b, d));
}

/// The primitives that row `s` of block `b` should show.
pub fn desired_primitives(notes: &Vec<TimelineNote>, b: u64, d: u64, s: usize) -> (r: Vec<Primitive>)
    requires
        notes_fit(notes@),
        0 < d <= MAX_BLOCK_DURATION,
        (b + 1) * d <= BLOCK_SPAN_LIMIT,
    ensures
        r@ == desired(notes@, b, d, s),
{
    let mut out: Vec<Primitive> = Vec::new();
    let mut k: usize = 0;
    while k < notes.len()
        invariant
            k <= notes@.len(),
            notes_fit(notes@),
            0 < d <= MAX_BLOCK_DURATION,
            (b + 1) * d <= BLOCK_SPAN_LIMIT,
            out@ == desired_row(notes@, k as int, b, d, s),
        decreases notes.len() - k,
    {
        let n = &notes[k];
        assert(n.well_formed());
        if n.string_index == s {
            primitives_for_note(n, b, d, &mut out);
        }
        k = k + 1;
    }
    out
}

pub open spec fn keys_seq(ps: Seq<Primitive>) -> Seq<PrimitiveKey> {
    ps.map_values(|p: Primitive| p.spec_key())
}

pub open spec fn wanted(want: Seq<Primitive>, k: PrimitiveKey, n: int) -> bool {
    exists|j: int| 0 <= j < n && (#[trigger] want[j]).spec_key() == k
}

pub proof fn lemma_push_contains<T>(s: Seq<T>, x: T, k: T)
    ensures
        s.push(x).contains(k) <==> (s.contains(k) || k == x),
{
    if s.push(x).contains(k) {
        let j = choose|j: int| 0 <= j < s.push(x).len() && s.push(x)[j] == k;
        if j < s.len() {
            assert(s[j] == k);
        }
    }
    if s.contains(k) {
        let j = choose|j: int| 0 <= j < s.len() && s[j] == k;
        assert(s.push(x)[j] == k);
    }
    if k == x {
        assert(s.push(x)[s.len() as int] == x);
    }
}

fn has_key(v: &Vec<PrimitiveKey>, k: PrimitiveKey) -> (r: bool)
    ensures
        r == v@.contains(k),
{
    let mut i: usize = 0;
    while i < v.len()
        invariant
            i <= v@.len(),
            forall|j: int| 0 <= j < i ==> v@[j] != k,
        decreases v.len() - i,
    {
        if v[i] == k {
            assert(v@[i as int] == k);
            return true;
        }
        i = i + 1;
    }
    false
}

fn wants_key(want: &Vec<Primitive>, k: PrimitiveKey) -> (r: bool)
    ensures
        r == keys_of(want@).contains(k),
{
    let mut i: usize = 0;
    while i < want.len()
        invariant
            i <= want@.len(),
            forall|j: int| 0 <= j < i ==> (#[trigger] want@[j]).spec_key() != k,
        decreases want.len() - i,
    {
        if want[i].key() == k {
            assert(want@[i as int].spec_key() == k);
            return true;
        }
        i = i + 1;
    }
    false
}

/// Reconciles one row: creates what `want` holds and the row lacks (once
/// per key), and, unless the row is `frozen`, destroys what the row holds
/// and `want` does not. `created` and `destroyed` receive the instructions.
pub fn reconcile_row(
    row: &mut Vec<PrimitiveKey>,
    want: &Vec<Primitive>,
    frozen: bool,
    created: &mut Vec<Primitive>,
    destroyed: &mut Vec<PrimitiveKey>,
)
    requires
        old(row)@.no_duplicates(),
    ensures
        final(row)@.no_duplicates(),
        final(row)@.to_set() == (if frozen {
            old(row)@.to_set().union(keys_of(want@))
        } else {
            keys_of(want@)
        }),
        final(created)@.len() >= old(created)@.len(),
        final(created)@.subrange(0, old(created)@.len() as int) == old(created)@,
        ({
            let new_c = final(created)@.subrange(old(created)@.len() as int, final(created)@.len() as int);
            &&& keys_seq(new_c).no_duplicates()
            &&& keys_seq(new_c).to_set() == keys_of(want@).difference(old(row)@.to_set())
            &&& forall|j: int| 0 <= j < new_c.len() ==> want@.contains(#[trigger] new_c[j])
        }),
        final(destroyed)@.len() >= old(destroyed)@.len(),
        final(destroyed)@.subrange(0, old(destroyed)@.len() as int) == old(destroyed)@,
        ({
            let new_d = final(destroyed)@.subrange(old(destroyed)@.len() as int, final(destroyed)@.len() as int);
            &&& new_d.no_duplicates()
            &&& new_d.to_set() == (if frozen {
                Set::<PrimitiveKey>::empty()
            } else {
                old(row)@.to_set().difference(keys_of(want@))
            })
        }),
{
    let ghost r0 = row@;
    let ghost c0 = created@;
    let ghost d0 = destroyed@;
    let mut i: usize = 0;
    while i < want.len()
        invariant
            i <= want@.len(),
            row@.no_duplicates(),
            forall|k: PrimitiveKey| #[trigger] row@.contains(k) <==> (r0.contains(k) || wanted(want@, k, i as int)),
            c0.len() <= created@.len(),
            created@.subrange(0, c0.len() as int) == c0,
            row@ == r0 + keys_seq(created@.subrange(c0.len() as int, created@.len() as int)),
            forall|j: int| c0.len() <= j < created@.len() ==> want@.contains(#[trigger] created@[j]),
        decreases want.len() - i,
    {
        let p = want[i];
        let k = p.key();
        proof {
            assert forall|kk: PrimitiveKey| #[trigger] wanted(want@, kk, i + 1) <==> (wanted(want@, kk, i as int) || kk == k) by {
                if wanted(want@, kk, i + 1) {
                    let j = choose|j: int| 0 <= j < i + 1 && (#[trigger] want@[j]).spec_key() == kk;
                    if j < i {
                        assert(wanted(want@, kk, i as int));
                    }
                }
                if kk == k {
                    assert(want@[i as int].spec_key() == kk);
                }
                if wanted(want@, kk, i as int) {
                    let j = choose|j: int| 0 <= j < i && (#[trigger] want@[j]).spec_key() == kk;
                    assert(want@[j].spec_key() == kk);
                }
            }
        }
        if !has_key(row, k) {
            let ghost cprev = created@;
            let ghost rprev = row@;
            created.push(p);
            row.push(k);
            proof {
                assert(want@.contains(p)) by {
                    assert(want@[i as int] == p);
                }
                assert(created@.subrange(0, c0.len() as int) =~= cprev.subrange(0, c0.len() as int));
                assert(created@.subrange(c0.len() as int, created@.len() as int) =~= cprev.subrange(c0.len() as int, cprev.len() as int).push(p));
                assert(keys_seq(created@.subrange(c0.len() as int, created@.len() as int)) =~= keys_seq(cprev.subrange(c0.len() as int, cprev.len() as int)).push(k));
                assert(row@ =~= r0 + keys_seq(created@.subrange(c0.len() as int, created@.len() as int)));
                assert(row@ =~= rprev.push(k));
                assert forall|kk: PrimitiveKey| #[trigger] row@.contains(kk) <==> (r0.contains(kk) || wanted(want@, kk, i + 1)) by {
                    lemma_push_contains(rprev, k, kk);
                    assert(rprev.contains(kk) <==> (r0.contains(kk) || wanted(want@, kk, i as int)));
                    assert(wanted(want@, kk, i + 1) <==> (wanted(want@, kk, i as int) || kk == k));
                }
                assert forall|a: int, b: int| 0 <= a < b < row@.len() implies row@[a] != row@[b] by {
                    if b == row@.len() - 1 {
                        assert(rprev.contains(rprev[a]));
                    }
                }
            }
        } else {
            proof {
                assert forall|kk: PrimitiveKey| #[trigger] row@.contains(kk) <==> (r0.contains(kk) || wanted(want@, kk, i + 1)) by {
                    assert(wanted(want@, kk, i + 1) <==> (wanted(want@, kk, i as int) || kk == k));
                }
            }
        }
        i = i + 1;
    }
    let ghost mid = row@;
    let ghost new_c = created@.subrange(c0.len() as int, created@.len() as int);
    proof {
        assert(mid == r0 + keys_seq(new_c));
        assert forall|k: PrimitiveKey| wanted(want@, k, want@.len() as int) <==> keys_of(want@).contains(k) by {}
        assert(keys_seq(new_c).no_duplicates()) by {
            assert forall|a: int, b: int| 0 <= a < b < keys_seq(new_c).len() implies keys_seq(new_c)[a] != keys_seq(new_c)[b] by {
                assert(keys_seq(new_c)[a] == mid[r0.len() + a]);
                assert(keys_seq(new_c)[b] == mid[r0.len() + b]);
            }
        }
        assert forall|k: PrimitiveKey| #[trigger] keys_seq(new_c).contains(k) <==> keys_of(want@).difference(r0.to_set()).contains(k) by {
            if keys_seq(new_c).contains(k) {
                let j = choose|j: int| 0 <= j < keys_seq(new_c).len() && keys_seq(new_c)[j] == k;
                assert(mid[r0.len() + j] == k);
                assert(mid.contains(k));
                if r0.contains(k) {
                    let a = choose|a: int| 0 <= a < r0.len() && r0[a] == k;
                    assert(mid[a] == k);
                }
            }
            if keys_of(want@).difference(r0.to_set()).contains(k) {
                assert(mid.contains(k));
                let j = choose|j: int| 0 <= j < mid.len() && mid[j] == k;
                if j < r0.len() {
                    assert(r0.contains(k));
                } else {
                    assert(keys_seq(new_c)[j - r0.len()] == k);
                }
            }
        }
        assert(keys_seq(new_c).to_set() =~= keys_of(want@).difference(r0.to_set()));
        assert forall|j: int| 0 <= j < new_c.len() implies want@.contains(#[trigger] new_c[j]) by {
            assert(new_c[j] == created@[c0.len() + j]);
        }
    }
    if !frozen {
        let mut kept: Vec<PrimitiveKey> = Vec::new();
        let mut j: usize = 0;
        while j < row.len()
            invariant
                row@ == mid,
                j <= mid.len(),
                forall|k: PrimitiveKey| #[trigger] mid.contains(k) <==> (r0.contains(k) || wanted(want@, k, want@.len() as int)),
                mid.no_duplicates(),
                d0.len() <= destroyed@.len(),
                destroyed@.subrange(0, d0.len() as int) == d0,
                forall|k: PrimitiveKey| #[trigger] kept@.contains(k) <==> (mid.subrange(0, j as int).contains(k) && keys_of(want@).contains(k)),
                forall|k: PrimitiveKey| #[trigger] destroyed@.subrange(d0.len() as int, destroyed@.len() as int).contains(k) <==> (mid.subrange(0, j as int).contains(k) && !keys_of(want@).contains(k)),
                kept@.no_duplicates(),
                destroyed@.subrange(d0.len() as int, destroyed@.len() as int).no_duplicates(),
            decreases mid.len() - j,
        {
            let k = row[j];
            let ghost dprev = destroyed@;
            let ghost kprev = kept@;
            proof {
                assert(mid.subrange(0, j + 1) =~= mid.subrange(0, j as int).push(k));
                assert(!mid.subrange(0, j as int).contains(k)) by {
                    if mid.subrange(0, j as int).contains(k) {
                        let a = choose|a: int| 0 <= a < j && mid.subrange(0, j as int)[a] == k;
                        assert(mid[a] == mid[j as int]);
                    }
                }
            }
            if wants_key(want, k) {
                kept.push(k);
                proof {
                    assert forall|kk: PrimitiveKey| #[trigger] kept@.contains(kk) <==> (mid.subrange(0, j + 1).contains(kk) && keys_of(want@).contains(kk)) by {
                        lemma_push_contains(kprev, k, kk);
                        lemma_push_contains(mid.subrange(0, j as int), k, kk);
                    }
                    assert forall|kk: PrimitiveKey| #[trigger] destroyed@.subrange(d0.len() as int, destroyed@.len() as int).contains(kk) <==> (mid.subrange(0, j + 1).contains(kk) && !keys_of(want@).contains(kk)) by {
                        lemma_push_contains(mid.subrange(0, j as int), k, kk);
                        assert(dprev.subrange(d0.len() as int, dprev.len() as int).contains(kk) <==> (mid.subrange(0, j as int).contains(kk) && !keys_of(want@).contains(kk)));
                    }
                    assert forall|a: int, b: int| 0 <= a < b < kept@.len() implies kept@[a] != kept@[b] by {
                        if b == kept@.len() - 1 {
                            assert(kprev.contains(kprev[a]));
                        }
                    }
                    assert(destroyed@ == dprev);
                }
            } else {
                destroyed.push(k);
                proof {
                    assert(destroyed@.subrange(0, d0.len() as int) =~= dprev.subrange(0, d0.len() as int));
                    assert(destroyed@.subrange(d0.len() as int, destroyed@.len() as int) =~= dprev.subrange(d0.len() as int, dprev.len() as int).push(k));
                    let ds = dprev.subrange(d0.len() as int, dprev.len() as int);
                    assert forall|kk: PrimitiveKey| #[trigger] destroyed@.subrange(d0.len() as int, destroyed@.len() as int).contains(kk) <==> (mid.subrange(0, j + 1).contains(kk) && !keys_of(want@).contains(kk)) by {
                        lemma_push_contains(ds, k, kk);
                        lemma_push_contains(mid.subrange(0, j as int), k, kk);
                        assert(ds.contains(kk) <==> (mid.subrange(0, j as int).contains(kk) && !keys_of(want@).contains(kk)));
                    }
                    assert forall|kk: PrimitiveKey| #[trigger] kept@.contains(kk) <==> (mid.subrange(0, j + 1).contains(kk) && keys_of(want@).contains(kk)) by {
                        lemma_push_contains(mid.subrange(0, j as int), k, kk);
                    }
                    assert forall|a: int, b: int| 0 <= a < b < ds.push(k).len() implies ds.push(k)[a] != ds.push(k)[b] by {
                        if b == ds.len() {
                            assert(ds.contains(ds[a]));
                        }
                    }
                }
            }
            j = j + 1;
        }
        proof {
            assert(mid.subrange(0, mid.len() as int) =~= mid);
            assert forall|k: PrimitiveKey| #[trigger] kept@.to_set().contains(k) <==> keys_of(want@).contains(k) by {
                if keys_of(want@).contains(k) {
                    let w = choose|w: int| 0 <= w < want@.len() && (#[trigger] want@[w]).spec_key() == k;
                    assert(wanted(want@, k, want@.len() as int));
                    assert(mid.contains(k));
                    assert(mid.subrange(0, mid.len() as int).contains(k));
                }
            }
            assert(kept@.to_set() =~= keys_of(want@));
            let nd = destroyed@.subrange(d0.len() as int, destroyed@.len() as int);
            assert forall|k: PrimitiveKey| #[trigger] nd.to_set().contains(k) <==> r0.to_set().difference(keys_of(want@)).contains(k) by {
                assert(nd.contains(k) <==> (mid.subrange(0, mid.len() as int).contains(k) && !keys_of(want@).contains(k)));
                assert(wanted(want@, k, want@.len() as int) ==> keys_of(want@).contains(k));
                if r0.contains(k) {
                    let a = choose|a: int| 0 <= a < r0.len() && r0[a] == k;
                    assert(mid[a] == k);
                }
                if mid.contains(k) && !keys_of(want@).contains(k) {
                    assert(r0.contains(k) || wanted(want@, k, want@.len() as int));
                }
            }
            assert(nd.to_set() =~= r0.to_set().difference(keys_of(want@)));
        }
        *row = kept;
    } else {
        proof {
            assert(destroyed@.subrange(d0.len() as int, destroyed@.len() as int) =~= Seq::<PrimitiveKey>::empty());
            assert(destroyed@.subrange(0, d0.len() as int) =~= d0);
            assert forall|k: PrimitiveKey| #[trigger] mid.to_set().contains(k) <==> r0.to_set().union(keys_of(want@)).contains(k) by {
                assert(mid.contains(k) <==> (r0.contains(k) || wanted(want@, k, want@.len() as int)));
                assert(wanted(want@, k, want@.len() as int) <==> keys_of(want@).contains(k));
            }
            assert(mid.to_set() =~= r0.to_set().union(keys_of(want@)));
            assert(Seq::<PrimitiveKey>::empty().to_set() =~= Set::<PrimitiveKey>::empty());
        }
    }
}

/// A block of the timeline: its index, and per string the keys of the
/// primitives it shows.
pub struct BlockView {
    pub index: u64,
    pub rows: Vec<Vec<PrimitiveKey>>,
    /// The block is collapsing out of the window.
    pub is_removing: bool,
    /// The block's size is held at its measured value (during a collapse).
    pub frozen: bool,
}

/// A lifecycle instruction for the renderer.
#[derive(Clone, Copy, Debug, PartialEq, Eq, Structural)]
pub enum Instruction {
    /// A block enters the window with `rows` empty rows.
    CreateBlock { index: u64, rows: usize },
    /// A block and every primitive in it go away.
    DestroyBlock { index: u64 },
    Create { block: u64, string: usize, primitive: Primitive },
    Destroy { block: u64, string: usize, key: PrimitiveKey },
}

pub open spec fn rows_distinct(rows: Seq<Vec<PrimitiveKey>>) -> bool {
    forall|s: int| 0 <= s < rows.len() ==> (#[trigger] rows[s])@.no_duplicates()
}

/// Keys that `instrs` creates in row `s` of block `b`.
pub open spec fn creates(ins: Instruction, b: u64, s: usize, k: PrimitiveKey) -> bool {
    match ins {
        Instruction::Create { block, string, primitive } => block == b && string == s && primitive.spec_key() == k,
        _ => false,
    }
}

pub open spec fn created_keys(instrs: Seq<Instruction>, b: u64, s: usize) -> Set<PrimitiveKey> {
    Set::new(|k: PrimitiveKey| exists|i: int| 0 <= i < instrs.len() && creates(#[trigger] instrs[i], b, s, k))
}

/// Keys that `instrs` destroys in row `s` of block `b`.
pub open spec fn destroyed_keys(instrs: Seq<Instruction>, b: u64, s: usize) -> Set<PrimitiveKey> {
    Set::new(|k: PrimitiveKey| exists|i: int| 0 <= i < instrs.len() && #[trigger] instrs[i] == (Instruction::Destroy { block: b, string: s, key: k }))
}

/// One row after reconciliation against `want`: a frozen row keeps what it
/// had and gains what it lacked; any other row shows exactly `want`.
pub open spec fn row_reconciled(before: Seq<PrimitiveKey>, after: Seq<PrimitiveKey>, want: Seq<Primitive>, frozen: bool) -> bool {
    &&& after.no_duplicates()
    &&& after.to_set() == (if frozen { before.to_set().union(keys_of(want)) } else { keys_of(want) })
}

/// `instrs` holds, for row `s` of block `b`, a creation for each wanted key
/// the row lacked and, unless frozen, a destruction for each key it had
/// and is no longer wanted.
/// A creation in row `s` of block `b` carries a primitive of `want`.
pub open spec fn create_within(ins: Instruction, b: u64, s: usize, want: Seq<Primitive>) -> bool {
    match ins {
        Instruction::Create { block, string, primitive } => (block == b && string == s) ==> want.contains(primitive),
        _ => true,
    }
}

/// Every creation in row `s` of block `b` carries a primitive of `want`,
/// with its placement.
pub open spec fn creates_from(instrs: Seq<Instruction>, b: u64, s: usize, want: Seq<Primitive>) -> bool {
    forall|i: int| 0 <= i < instrs.len() ==> create_within(#[trigger] instrs[i], b, s, want)
}

pub open spec fn row_instructions(instrs: Seq<Instruction>, b: u64, s: usize, before: Seq<PrimitiveKey>, want: Seq<Primitive>, frozen: bool) -> bool {
    &&& creates_from(instrs, b, s, want)
    &&& created_keys(instrs, b, s) == keys_of(want).difference(before.to_set())
    &&& destroyed_keys(instrs, b, s) == (if frozen { Set::empty() } else { before.to_set().difference(keys_of(want)) })
}

/// Each row of a block, `before` and `after` reconciliation.
pub open spec fn block_rows_reconciled(
    before: Seq<Vec<PrimitiveKey>>,
    after: Seq<Vec<PrimitiveKey>>,
    instrs: Seq<Instruction>,
    notes: Seq<TimelineNote>,
    b: u64,
    d: u64,
    current: u64,
) -> bool {
    &&& after.len() == before.len()
    &&& forall|s: int| 0 <= s < after.len() ==> {
        &&& row_reconciled(before[s]@, (#[trigger] after[s])@, desired(notes, b, d, s as usize), b < current)
        &&& row_instructions(instrs, b, s as usize, before[s]@, desired(notes, b, d, s as usize), b < current)
    }
}

/// Every instruction in `instrs` is a creation or destruction in a row of
/// one of `blocks`.
pub open spec fn instructions_in_rows(instrs: Seq<Instruction>, blocks: Seq<BlockView>) -> bool {
    forall|i: int| 0 <= i < instrs.len() ==> match #[trigger] instrs[i] {
        Instruction::Create { block, string, .. } => exists|j: int| 0 <= j < blocks.len() && blocks[j].index == block && string < blocks[j].rows@.len(),
        Instruction::Destroy { block, string, .. } => exists|j: int| 0 <= j < blocks.len() && blocks[j].index == block && string < blocks[j].rows@.len(),
        _ => false,
    }
}

/// The blocks are in strictly ascending index order.
pub open spec fn blocks_ordered(blocks: Seq<BlockView>) -> bool {
    forall|i: int, j: int| 0 <= i < j < blocks.len() ==> (#[trigger] blocks[i]).index < (#[trigger] blocks[j]).index
}

/// `after` is `before` reconciled against the notes, with block duration
/// `d` and playback in block `current`; `instrs` are the instructions.
pub open spec fn blocks_reconciled(
    before: Seq<BlockView>,
    after: Seq<BlockView>,
    instrs: Seq<Instruction>,
    notes: Seq<TimelineNote>,
    d: u64,
    current: u64,
) -> bool {
    &&& after.len() == before.len()
    &&& instructions_in_rows(instrs, after)
    &&& forall|i: int| 0 <= i < after.len() ==> {
        &&& (#[trigger] after[i]).index == before[i].index
        &&& after[i].is_removing == before[i].is_removing
        &&& after[i].frozen == before[i].frozen
        &&& block_rows_reconciled(before[i].rows@, after[i].rows@, instrs, notes, after[i].index, d, current)
    }
}

pub open spec fn blocks_fit(blocks: Seq<BlockView>, d: u64) -> bool {
    forall|i: int| 0 <= i < blocks.len() ==> ((#[trigger] blocks[i]).index + 1) * d <= BLOCK_SPAN_LIMIT
}

pub open spec fn blocks_distinct(blocks: Seq<BlockView>) -> bool {
    forall|i: int| 0 <= i < blocks.len() ==> rows_distinct((#[trigger] blocks[i]).rows@)
}

/// The instruction concerns row `s` of block `b`.
pub open spec fn touches(ins: Instruction, b: u64, s: usize) -> bool {
    match ins {
        Instruction::Create { block, string, .. } => block == b && string == s,
        Instruction::Destroy { block, string, .. } => block == b && string == s,
        _ => false,
    }
}

pub open spec fn block_of(ins: Instruction) -> u64 {
    match ins {
        Instruction::CreateBlock { index, .. } => index,
        Instruction::DestroyBlock { index } => index,
        Instruction::Create { block, .. } => block,
        Instruction::Destroy { block, .. } => block,
    }
}

pub open spec fn string_of(ins: Instruction) -> usize {
    match ins {
        Instruction::Create { string, .. } => string,
        Instruction::Destroy { string, .. } => string,
        _ => 0,
    }
}

proof fn lemma_keys_extend(a: Seq<Instruction>, e: Seq<Instruction>, b: u64, s: usize, want: Seq<Primitive>)
    requires
        forall|j: int| 0 <= j < e.len() ==> !touches(#[trigger] e[j], b, s),
    ensures
        creates_from(a + e, b, s, want) == creates_from(a, b, s, want),
        created_keys(a + e, b, s) == created_keys(a, b, s),
        destroyed_keys(a + e, b, s) == destroyed_keys(a, b, s),
{
    assert forall|k: PrimitiveKey| #[trigger] created_keys(a + e, b, s).contains(k) <==> created_keys(a, b, s).contains(k) by {
        if created_keys(a + e, b, s).contains(k) {
            let i = choose|i: int| 0 <= i < (a + e).len() && creates(#[trigger] (a + e)[i], b, s, k);
            if i >= a.len() {
                assert(e[i - a.len()] == (a + e)[i]);
            } else {
                assert(a[i] == (a + e)[i]);
            }
        }
        if created_keys(a, b, s).contains(k) {
            let i = choose|i: int| 0 <= i < a.len() && creates(#[trigger] a[i], b, s, k);
            assert((a + e)[i] == a[i]);
        }
    }
    assert forall|k: PrimitiveKey| #[trigger] destroyed_keys(a + e, b, s).contains(k) <==> destroyed_keys(a, b, s).contains(k) by {
        if destroyed_keys(a + e, b, s).contains(k) {
            let i = choose|i: int| 0 <= i < (a + e).len() && #[trigger] (a + e)[i] == (Instruction::Destroy { block: b, string: s, key: k });
            if i >= a.len() {
                assert(e[i - a.len()] == (a + e)[i]);
            } else {
                assert(a[i] == (a + e)[i]);
            }
        }
        if destroyed_keys(a, b, s).contains(k) {
            let i = choose|i: int| 0 <= i < a.len() && #[trigger] a[i] == (Instruction::Destroy { block: b, string: s, key: k });
            assert((a + e)[i] == a[i]);
        }
    }
    if creates_from(a, b, s, want) {
        assert forall|i: int| 0 <= i < (a + e).len() implies create_within(#[trigger] (a + e)[i], b, s, want) by {
            if i < a.len() {
                assert((a + e)[i] == a[i]);
            } else {
                assert((a + e)[i] == e[i - a.len()]);
            }
        }
    }
    if creates_from(a + e, b, s, want) {
        assert forall|i: int| 0 <= i < a.len() implies create_within(#[trigger] a[i], b, s, want) by {
            assert((a + e)[i] == a[i]);
        }
    }
    assert(created_keys(a + e, b, s) =~= created_keys(a, b, s));
    assert(destroyed_keys(a + e, b, s) =~= destroyed_keys(a, b, s));
}

/// Appends the creations and destructions of one row.
fn emit_row(instrs: &mut Vec<Instruction>, b: u64, s: usize, created: &Vec<Primitive>, destroyed: &Vec<PrimitiveKey>)
    requires
        forall|j: int| 0 <= j < old(instrs)@.len() ==> !touches(#[trigger] old(instrs)@[j], b, s),
    ensures
        final(instrs)@.len() >= old(instrs)@.len(),
        final(instrs)@.subrange(0, old(instrs)@.len() as int) == old(instrs)@,
        forall|j: int| old(instrs)@.len() <= j < final(instrs)@.len() ==> touches(#[trigger] final(instrs)@[j], b, s),
        created_keys(final(instrs)@, b, s) == keys_seq(created@).to_set(),
        creates_from(final(instrs)@, b, s, created@),
        destroyed_keys(final(instrs)@, b, s) == destroyed@.to_set(),
{
    let ghost a = instrs@;
    let mut i: usize = 0;
    while i < created.len()
        invariant
            i <= created@.len(),
            instrs@.len() == a.len() + i,
            instrs@.subrange(0, a.len() as int) == a,
            forall|j: int| 0 <= j < i ==> #[trigger] instrs@[a.len() + j] == (Instruction::Create { block: b, string: s, primitive: created@[j] }),
        decreases created.len() - i,
    {
        let ghost prev = instrs@;
        instrs.push(Instruction::Create { block: b, string: s, primitive: created[i] });
        proof {
            assert(instrs@.subrange(0, a.len() as int) =~= prev.subrange(0, a.len() as int));
            assert forall|j: int| 0 <= j < i + 1 implies #[trigger] instrs@[a.len() + j] == (Instruction::Create { block: b, string: s, primitive: created@[j] }) by {
                if j < i {
                    assert(instrs@[a.len() + j] == prev[a.len() + j]);
                }
            }
        }
        i = i + 1;
    }
    let mut m: usize = 0;
    let cl = created.len();
    while m < destroyed.len()
        invariant
            m <= destroyed@.len(),
            cl == created@.len(),
            instrs@.len() == a.len() + cl + m,
            instrs@.subrange(0, a.len() as int) == a,
            forall|j: int| 0 <= j < cl ==> #[trigger] instrs@[a.len() + j] == (Instruction::Create { block: b, string: s, primitive: created@[j] }),
            forall|j: int| 0 <= j < m ==> #[trigger] instrs@[a.len() + cl + j] == (Instruction::Destroy { block: b, string: s, key: destroyed@[j] }),
        decreases destroyed.len() - m,
    {
        let ghost prev = instrs@;
        instrs.push(Instruction::Destroy { block: b, string: s, key: destroyed[m] });
        proof {
            assert(instrs@.subrange(0, a.len() as int) =~= prev.subrange(0, a.len() as int));
            assert forall|j: int| 0 <= j < cl implies #[trigger] instrs@[a.len() + j] == (Instruction::Create { block: b, string: s, primitive: created@[j] }) by {
                assert(instrs@[a.len() + j] == prev[a.len() + j]);
            }
            assert forall|j: int| 0 <= j < m + 1 implies #[trigger] instrs@[a.len() + cl + j] == (Instruction::Destroy { block: b, string: s, key: destroyed@[j] }) by {
                if j < m {
                    assert(instrs@[a.len() + cl + j] == prev[a.len() + cl + j]);
                }
            }
        }
        m = m + 1;
    }
    proof {
        let f = instrs@;
        assert forall|j: int| a.len() <= j < f.len() implies touches(#[trigger] f[j], b, s) by {
            if j < a.len() + cl {
                assert(f[a.len() + (j - a.len())] == f[j]);
            } else {
                assert(f[a.len() + cl + (j - a.len() - cl)] == f[j]);
            }
        }
        assert forall|k: PrimitiveKey| #[trigger] created_keys(f, b, s).contains(k) <==> keys_seq(created@).to_set().contains(k) by {
            if created_keys(f, b, s).contains(k) {
                let i = choose|i: int| 0 <= i < f.len() && creates(#[trigger] f[i], b, s, k);
                if i < a.len() {
                    assert(a[i] == f[i]);
                    assert(touches(a[i], b, s));
                } else if i < a.len() + cl {
                    assert(f[a.len() + (i - a.len())] == f[i]);
                    assert(keys_seq(created@)[i - a.len()] == k);
                } else {
                    assert(f[a.len() + cl + (i - a.len() - cl)] == f[i]);
                }
            }
            if keys_seq(created@).to_set().contains(k) {
                let j = choose|j: int| 0 <= j < keys_seq(created@).len() && keys_seq(created@)[j] == k;
                assert(creates(f[a.len() + j], b, s, k));
            }
        }
        assert(created_keys(f, b, s) =~= keys_seq(created@).to_set());
        assert forall|i: int| 0 <= i < f.len() implies create_within(#[trigger] f[i], b, s, created@) by {
            if i < a.len() {
                assert(a[i] == f[i]);
            } else if i < a.len() + cl {
                assert(f[a.len() + (i - a.len())] == f[i]);
                assert(created@[i - a.len()] == created@[i - a.len()]);
            } else {
                assert(f[a.len() + cl + (i - a.len() - cl)] == f[i]);
            }
        }
        assert forall|k: PrimitiveKey| #[trigger] destroyed_keys(f, b, s).contains(k) <==> destroyed@.to_set().contains(k) by {
            if destroyed_keys(f, b, s).contains(k) {
                let i = choose|i: int| 0 <= i < f.len() && #[trigger] f[i] == (Instruction::Destroy { block: b, string: s, key: k });
                if i < a.len() {
                    assert(a[i] == f[i]);
                    assert(touches(a[i], b, s));
                } else if i < a.len() + cl {
                    assert(f[a.len() + (i - a.len())] == f[i]);
                } else {
                    assert(f[a.len() + cl + (i - a.len() - cl)] == f[i]);
                    assert(destroyed@[i - a.len() - cl] == k);
                }
            }
            if destroyed@.to_set().contains(k) {
                let j = choose|j: int| 0 <= j < destroyed@.len() && destroyed@[j] == k;
                assert(f[a.len() + cl + j] == (Instruction::Destroy { block: b, string: s, key: k }));
            }
        }
        assert(destroyed_keys(f, b, s) =~= destroyed@.to_set());
    }
}

pub open spec fn is_row_instruction(ins: Instruction) -> bool {
    ins is Create || ins is Destroy
}

/// Reconciles every row of one block; rows of a block before `current`
/// are frozen.
pub fn reconcile_block(blk: &mut BlockView, notes: &Vec<TimelineNote>, d: u64, current: u64, instrs: &mut Vec<Instruction>)
    requires
        rows_distinct(old(blk).rows@),
        (old(blk).index + 1) * d <= BLOCK_SPAN_LIMIT,
        0 < d <= MAX_BLOCK_DURATION,
        notes_fit(notes@),
        forall|j: int| 0 <= j < old(instrs)@.len() ==> block_of(#[trigger] old(instrs)@[j]) < old(blk).index,
    ensures
        final(blk).index == old(blk).index,
        final(blk).is_removing == old(blk).is_removing,
        final(blk).frozen == old(blk).frozen,
        rows_distinct(final(blk).rows@),
        final(instrs)@.len() >= old(instrs)@.len(),
        final(instrs)@.subrange(0, old(instrs)@.len() as int) == old(instrs)@,
        forall|j: int| old(instrs)@.len() <= j < final(instrs)@.len() ==> {
            &&& is_row_instruction(#[trigger] final(instrs)@[j])
            &&& block_of(final(instrs)@[j]) == old(blk).index
            &&& string_of(final(instrs)@[j]) < old(blk).rows@.len()
        },
        block_rows_reconciled(old(blk).rows@, final(blk).rows@, final(instrs)@, notes@, old(blk).index, d, current),
{
    let b = blk.index;
    let frozen = b < current;
    let mut rows: Vec<Vec<PrimitiveKey>> = Vec::new();
    std::mem::swap(&mut rows, &mut blk.rows);
    let ghost orig = rows@;
    let ghost a = instrs@;
    let n = rows.len();
    let mut done: Vec<Vec<PrimitiveKey>> = Vec::new();
    let mut s: usize = 0;
    while s < n
        invariant
            n == orig.len(),
            s <= n,
            rows@ == orig.subrange(s as int, n as int),
            done@.len() == s,
            rows_distinct(orig),
            rows_distinct(done@),
            b == old(blk).index,
            frozen == (b < current),
            (b + 1) * d <= BLOCK_SPAN_LIMIT,
            0 < d <= MAX_BLOCK_DURATION,
            notes_fit(notes@),
            forall|j: int| 0 <= j < a.len() ==> block_of(#[trigger] a[j]) < b,
            instrs@.len() >= a.len(),
            instrs@.subrange(0, a.len() as int) == a,
            forall|j: int| a.len() <= j < instrs@.len() ==> {
                &&& is_row_instruction(#[trigger] instrs@[j])
                &&& block_of(instrs@[j]) == b
                &&& string_of(instrs@[j]) < s
            },
            forall|t: int| 0 <= t < s ==> {
                &&& row_reconciled(orig[t]@, (#[trigger] done@[t])@, desired(notes@, b, d, t as usize), frozen)
                &&& row_instructions(instrs@, b, t as usize, orig[t]@, desired(notes@, b, d, t as usize), frozen)
            },
        decreases n - s,
    {
        let mut row = rows.remove(0);
        assert(row@ == orig[s as int]@);
        let want = desired_primitives(notes, b, d, s);
        let mut created: Vec<Primitive> = Vec::new();
        let mut destroyed: Vec<PrimitiveKey> = Vec::new();
        reconcile_row(&mut row, &want, frozen, &mut created, &mut destroyed);
        proof {
            assert(created@.subrange(0, created@.len() as int) =~= created@);
            assert(destroyed@.subrange(0, destroyed@.len() as int) =~= destroyed@);
        }
        let ghost before = instrs@;
        proof {
            assert forall|j: int| 0 <= j < before.len() implies !touches(#[trigger] before[j], b, s) by {
                if j < a.len() {
                    assert(before[j] == a[j]);
                }
            }
        }
        emit_row(instrs, b, s, &created, &destroyed);
        proof {
            let e = instrs@.subrange(before.len() as int, instrs@.len() as int);
            assert(instrs@ =~= before + e);
            assert forall|t: int| 0 <= t < s implies row_instructions(instrs@, b, t as usize, orig[t]@, desired(notes@, b, d, t as usize), frozen) by {
                assert(done@[t] == done@[t]);
                assert(row_reconciled(orig[t]@, done@[t]@, desired(notes@, b, d, t as usize), frozen));
                assert(row_instructions(before, b, t as usize, orig[t]@, desired(notes@, b, d, t as usize), frozen));
                assert forall|j: int| 0 <= j < e.len() implies !touches(#[trigger] e[j], b, t as usize) by {
                    assert(e[j] == instrs@[before.len() + j]);
                }
                lemma_keys_extend(before, e, b, t as usize, desired(notes@, b, d, t as usize));
            }
            assert(instrs@.subrange(0, a.len() as int) =~= before.subrange(0, a.len() as int));
            assert forall|j: int| a.len() <= j < instrs@.len() implies {
                &&& is_row_instruction(#[trigger] instrs@[j])
                &&& block_of(instrs@[j]) == b
                &&& string_of(instrs@[j]) < s + 1
            } by {
                if j < before.len() {
                    assert(instrs@[j] == before[j]);
                }
            }
        }
        done.push(row);
        proof {
            assert(rows@ =~= orig.subrange(s + 1, n as int));
        }
        s = s + 1;
    }
    let ghost fin = done@;
    blk.rows = done;
    proof {
        assert(orig == old(blk).rows@);
        assert forall|t: int| 0 <= t < fin.len() implies {
            &&& row_reconciled(orig[t]@, (#[trigger] fin[t])@, desired(notes@, b, d, t as usize), b < current)
            &&& row_instructions(instrs@, b, t as usize, orig[t]@, desired(notes@, b, d, t as usize), b < current)
        } by {
            assert(fin[t] == fin[t]);
            assert(row_reconciled(orig[t]@, fin[t]@, desired(notes@, b, d, t as usize), frozen));
        }
        assert(block_rows_reconciled(orig, fin, instrs@, notes@, b, d, current));
    }
}

/// Reconciles every block against the notes, for block duration `d` with
/// playback in block `current`.
pub fn reconcile_blocks(blocks: &mut Vec<BlockView>, notes: &Vec<TimelineNote>, d: u64, current: u64) -> (r: Vec<Instruction>)
    requires
        blocks_ordered(old(blocks)@),
        blocks_distinct(old(blocks)@),
        blocks_fit(old(blocks)@, d),
        0 < d <= MAX_BLOCK_DURATION,
        notes_fit(notes@),
    ensures
        blocks_ordered(final(blocks)@),
        blocks_distinct(final(blocks)@),
        blocks_reconciled(old(blocks)@, final(blocks)@, r@, notes@, d, current),
{
    let mut src: Vec<BlockView> = Vec::new();
    std::mem::swap(&mut src, blocks);
    let ghost orig = src@;
    let n = src.len();
    let mut instrs: Vec<Instruction> = Vec::new();
    let mut i: usize = 0;
    while i < n
        invariant
            n == orig.len(),
            i <= n,
            src@ == orig.subrange(i as int, n as int),
            blocks@.len() == i,
            blocks_ordered(orig),
            blocks_distinct(orig),
            blocks_fit(orig, d),
            blocks_distinct(blocks@),
            0 < d <= MAX_BLOCK_DURATION,
            notes_fit(notes@),
            forall|j: int| 0 <= j < instrs@.len() ==> {
                &&& is_row_instruction(#[trigger] instrs@[j])
                &&& exists|q: int| 0 <= q < i && orig[q].index == block_of(instrs@[j]) && string_of(instrs@[j]) < orig[q].rows@.len()
            },
            forall|j: int| 0 <= j < instrs@.len() ==> i < n ==> block_of(#[trigger] instrs@[j]) < orig[i as int].index,
            forall|q: int| 0 <= q < i ==> {
                &&& (#[trigger] blocks@[q]).index == orig[q].index
                &&& blocks@[q].is_removing == orig[q].is_removing
                &&& blocks@[q].frozen == orig[q].frozen
                &&& block_rows_reconciled(orig[q].rows@, blocks@[q].rows@, instrs@, notes@, orig[q].index, d, current)
            },
        decreases n - i,
    {
        let mut blk = src.remove(0);
        assert(blk == orig[i as int]);
        let ghost before = instrs@;
        reconcile_block(&mut blk, notes, d, current, &mut instrs);
        proof {
            let e = instrs@.subrange(before.len() as int, instrs@.len() as int);
            assert(instrs@ =~= before + e);
            assert forall|q: int| 0 <= q < i implies
                block_rows_reconciled(orig[q].rows@, (#[trigger] blocks@[q]).rows@, instrs@, notes@, orig[q].index, d, current) by {
                assert(orig[q].index < orig[i as int].index);
                assert(block_rows_reconciled(orig[q].rows@, blocks@[q].rows@, before, notes@, orig[q].index, d, current));
                assert forall|s: int| 0 <= s < blocks@[q].rows@.len() implies
                    row_instructions(instrs@, orig[q].index, s as usize, orig[q].rows@[s]@, desired(notes@, orig[q].index, d, s as usize), orig[q].index < current)
                    && #[trigger] blocks@[q].rows@[s] == blocks@[q].rows@[s] by {
                    assert(row_reconciled(orig[q].rows@[s]@, blocks@[q].rows@[s]@, desired(notes@, orig[q].index, d, s as usize), orig[q].index < current));
                    assert forall|j: int| 0 <= j < e.len() implies !touches(#[trigger] e[j], orig[q].index, s as usize) by {
                        assert(e[j] == instrs@[before.len() + j]);
                        assert(block_of(instrs@[before.len() + j]) == orig[i as int].index);
                    }
                    lemma_keys_extend(before, e, orig[q].index, s as usize, desired(notes@, orig[q].index, d, s as usize));
                }
            }
            assert forall|j: int| 0 <= j < instrs@.len() implies {
                &&& is_row_instruction(#[trigger] instrs@[j])
                &&& exists|q: int| 0 <= q < i + 1 && orig[q].index == block_of(instrs@[j]) && string_of(instrs@[j]) < orig[q].rows@.len()
            } by {
                if j < before.len() {
                    assert(instrs@[j] == before[j]);
                } else {
                    assert(orig[i as int].index == block_of(instrs@[j]));
                }
            }
            if i + 1 < n {
                assert forall|j: int| 0 <= j < instrs@.len() implies block_of(#[trigger] instrs@[j]) < orig[i + 1].index by {
                    assert(orig[i as int].index < orig[i + 1].index);
                    if j < before.len() {
                        assert(instrs@[j] == before[j]);
                    }
                }
            }
        }
        blocks.push(blk);
        proof {
            assert(src@ =~= orig.subrange(i + 1, n as int));
        }
        i = i + 1;
    }
    proof {
        assert forall|j: int| 0 <= j < instrs@.len() implies match #[trigger] instrs@[j] {
            Instruction::Create { block, string, .. } => exists|q: int| 0 <= q < blocks@.len() && blocks@[q].index == block && string < blocks@[q].rows@.len(),
            Instruction::Destroy { block, string, .. } => exists|q: int| 0 <= q < blocks@.len() && blocks@[q].index == block && string < blocks@[q].rows@.len(),
            _ => false,
        } by {
            let q = choose|q: int| 0 <= q < n && orig[q].index == block_of(instrs@[j]) && string_of(instrs@[j]) < orig[q].rows@.len();
            assert(blocks@[q].index == orig[q].index);
        }
    }
    instrs
}

} // verus!

verus! {

/// Reconciling a second time against the same notes, block duration and
/// playback block emits no instruction at all.
pub proof fn lemma_reconcile_idempotent(
    b0: Seq<BlockView>,
    b1: Seq<BlockView>,
    b2: Seq<BlockView>,
    first: Seq<Instruction>,
    second: Seq<Instruction>,
    notes: Seq<TimelineNote>,
    d: u64,
    current: u64,
)
    requires
        blocks_reconciled(b0, b1, first, notes, d, current),
        blocks_reconciled(b1, b2, second, notes, d, current),
    ensures
        second.len() == 0,
{
    if second.len() > 0 {
        let ins = second[0];
        let j = choose|j: int| 0 <= j < b2.len() && b2[j].index == block_of(ins) && string_of(ins) < b2[j].rows@.len();
        let s = string_of(ins) as int;
        let idx = b2[j].index;
        let w = desired(notes, idx, d, s as usize);
        assert(b1[j] == b1[j] && b2[j] == b2[j]);
        assert(block_rows_reconciled(b0[j].rows@, b1[j].rows@, first, notes, idx, d, current));
        assert(block_rows_reconciled(b1[j].rows@, b2[j].rows@, second, notes, idx, d, current));
        assert(b1[j].rows@[s] == b1[j].rows@[s] && b2[j].rows@[s] == b2[j].rows@[s]);
        assert(row_reconciled(b0[j].rows@[s]@, b1[j].rows@[s]@, w, idx < current));
        assert(row_reconciled(b1[j].rows@[s]@, b2[j].rows@[s]@, w, idx < current));
        let before = b1[j].rows@[s]@;
        match ins {
            Instruction::Create { block, string, primitive } => {
                assert(creates(second[0], idx, s as usize, primitive.spec_key()));
                assert(created_keys(second, idx, s as usize).contains(primitive.spec_key()));
                assert(keys_of(w).subset_of(before.to_set()));
            },
            Instruction::Destroy { block, string, key } => {
                assert(destroyed_keys(second, idx, s as usize).contains(key));
                assert(before.to_set().subset_of(keys_of(w)) || idx < current);
            },
            _ => {},
        }
    }
}

/// In a block that playback has already passed, reconciliation destroys
/// nothing: every primitive the block showed stays, whatever the notes.
pub proof fn lemma_past_blocks_frozen(
    before: Seq<BlockView>,
    after: Seq<BlockView>,
    instrs: Seq<Instruction>,
    notes: Seq<TimelineNote>,
    d: u64,
    current: u64,
    i: int,
    s: int,
)
    requires
        blocks_reconciled(before, after, instrs, notes, d, current),
        0 <= i < before.len(),
        before[i].index < current,
        0 <= s < before[i].rows@.len(),
    ensures
        destroyed_keys(instrs, before[i].index, s as usize) == Set::<PrimitiveKey>::empty(),
        before[i].rows@[s]@.to_set().subset_of(after[i].rows@[s]@.to_set()),
{
    assert(after[i] == after[i]);
    assert(block_rows_reconciled(before[i].rows@, after[i].rows@, instrs, notes, after[i].index, d, current));
    assert(after[i].rows@[s] == after[i].rows@[s]);
    let w = desired(notes, after[i].index, d, s as usize);
    assert(row_reconciled(before[i].rows@[s]@, after[i].rows@[s]@, w, after[i].index < current));
    assert(row_instructions(instrs, before[i].index, s as usize, before[i].rows@[s]@, w, true));
}

} // verus!
