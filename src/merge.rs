//! Merging the selected charts into the one note stream that a window of
//! time shows.
use vstd::prelude::*;
use crate::chart::{TabNote, TabNoteChart, Techniques, TIME_LIMIT};
use crate::note::{NoteView, TimelineNote};
use crate::tempo::valid_selection;
use crate::sort::{lemma_strictly_sorted_unique, strict_order, strictly_sorted};

verus! {

/// The merge key of a note: onset, string, fret.
pub open spec fn tab_key(n: TabNote) -> (int, int, int) {
    (n.time as int, n.string as int, n.fret as int)
}

pub open spec fn view_key(v: NoteView) -> (int, int, int) {
    (v.time as int, v.string_index as int, v.fret as int)
}

/// Strict lexicographic order on merge keys.
pub open spec fn key_lt(a: (int, int, int), b: (int, int, int)) -> bool {
    a.0 < b.0 || (a.0 == b.0 && (a.1 < b.1 || (a.1 == b.1 && a.2 < b.2)))
}

/// A note takes part in the merge when it stands on a string, has a valid
/// primary fret, and its sounding interval meets `[start, end]`.
pub open spec fn in_window(n: TabNote, start: u64, end: u64) -> bool {
    n.string >= 0 && n.fret >= 0 && n.time + n.sustain >= start && n.time <= end
}

/// A candidate of the merge: the difficulty of its chart, and the note.
pub type Candidate = (i32, TabNote);

/// The notes among the first `j` of `notes` that take part in the merge,
/// each with the difficulty `difficulty`.
pub open spec fn note_candidates(notes: Seq<TabNote>, j: int, start: u64, end: u64, difficulty: i32) -> Seq<Candidate>
    decreases j,
{
    if j <= 0 {
        Seq::empty()
    } else if in_window(notes[j - 1], start, end) {
        note_candidates(notes, j - 1, start, end, difficulty).push((difficulty, notes[j - 1]))
    } else {
        note_candidates(notes, j - 1, start, end, difficulty)
    }
}

/// The candidates of the first `c` selected charts, chart after chart.
pub open spec fn candidates(
    charts: Seq<TabNoteChart>,
    selected: Seq<usize>,
    c: int,
    start: u64,
    end: u64,
) -> Seq<Candidate>
    decreases c,
{
    if c <= 0 {
        Seq::empty()
    } else {
        let chart = charts[selected[c - 1] as int];
        candidates(charts, selected, c - 1, start, end)
            + note_candidates(chart.notes@, chart.notes@.len() as int, start, end, chart.difficulty)
    }
}

/// Lexicographic order on technique lists, by technique code.
pub open spec fn techs_le(x: Seq<Techniques>, y: Seq<Techniques>) -> bool
    decreases x.len(),
{
    if x.len() == 0 {
        true
    } else if y.len() == 0 {
        false
    } else if x[0].spec_code() != y[0].spec_code() {
        x[0].spec_code() < y[0].spec_code()
    } else {
        techs_le(x.drop_first(), y.drop_first())
    }
}

/// An order on the content of notes that share a merge key: sustain,
/// anchor, slide targets, bend, then techniques.
pub open spec fn content_le(a: TabNote, b: TabNote) -> bool {
    if a.sustain != b.sustain {
        a.sustain < b.sustain
    } else if a.anchor_fret != b.anchor_fret {
        a.anchor_fret < b.anchor_fret
    } else if a.slide_to != b.slide_to {
        a.slide_to < b.slide_to
    } else if a.slide_unpitch_to != b.slide_unpitch_to {
        a.slide_unpitch_to < b.slide_unpitch_to
    } else if a.max_bend != b.max_bend {
        a.max_bend < b.max_bend
    } else {
        techs_le(a.techniques@, b.techniques@)
    }
}

/// Candidate `a` is preferred to `b` (or equal to it): a higher
/// difficulty wins, and between equal difficulties the greater content.
pub open spec fn outranks(a: Candidate, b: Candidate) -> bool {
    a.0 > b.0 || (a.0 == b.0 && content_le(b.1, a.1))
}

/// The preferred candidate of `s` with merge key `k`.
pub open spec fn best_with_key(s: Seq<Candidate>, k: (int, int, int)) -> Option<Candidate>
    decreases s.len(),
{
    if s.len() == 0 {
        None
    } else {
        let prev = best_with_key(s.drop_last(), k);
        let x = s.last();
        if tab_key(x.1) != k {
            prev
        } else {
            match prev {
                None => Some(x),
                Some(y) => if outranks(x, y) { Some(x) } else { Some(y) },
            }
        }
    }
}

/// Adds a candidate fret to the list unless it is negative, the primary
/// fret, or already listed.
pub open spec fn push_fret(s: Seq<i32>, candidate: int, fret: i32) -> Seq<i32> {
    if candidate < 0 || candidate == fret || s.contains(candidate as i32) {
        s
    } else {
        s.push(candidate as i32)
    }
}

/// The frets a note reaches beyond its primary one: slide target,
/// unpitched slide target, anchor, and the fret its bend rises to.
pub open spec fn additional_frets_of(n: TabNote) -> Seq<i32> {
    let a = push_fret(Seq::empty(), n.slide_to as int, n.fret);
    let b = push_fret(a, n.slide_unpitch_to as int, n.fret);
    let c = push_fret(b, n.anchor_fret as int, n.fret);
    if n.max_bend > 0 {
        push_fret(c, n.fret + (n.max_bend + 99) / 100, n.fret)
    } else {
        c
    }
}

pub open spec fn present(v: i32) -> Option<i32> {
    if v >= 0 {
        Some(v)
    } else {
        None
    }
}

/// How a chart note is shown on the timeline.
pub open spec fn timeline_view(n: TabNote) -> NoteView {
    NoteView {
        time: n.time,
        sustain: n.sustain,
        string_index: n.string as usize,
        fret: n.fret,
        techniques: n.techniques@,
        additional_frets: additional_frets_of(n),
        slide_target: present(n.slide_to),
        slide_unpitched_target: present(n.slide_unpitch_to),
    }
}

/// `r` is the merge of `cands`: one note per merge key, the preferred
/// candidate with that key, in ascending key order.
pub open spec fn is_merge_of(r: Seq<TimelineNote>, cands: Seq<Candidate>) -> bool {
    &&& forall|i: int, j: int| 0 <= i < j < r.len() ==> key_lt(view_key((#[trigger] r[i])@), view_key((#[trigger] r[j])@))
    &&& forall|i: int| 0 <= i < r.len() ==> {
        &&& #[trigger] best_with_key(cands, view_key(r[i]@)) is Some
        &&& r[i]@ == timeline_view((best_with_key(cands, view_key(r[i]@))->0).1)
    }
    &&& forall|j: int| 0 <= j < cands.len() ==> exists|i: int| 0 <= i < r.len() && view_key(r[i]@) == tab_key((#[trigger] cands[j]).1)
}

proof fn lemma_best_push(s: Seq<Candidate>, x: Candidate, k: (int, int, int))
    ensures
        best_with_key(s.push(x), k) == (if tab_key(x.1) != k {
            best_with_key(s, k)
        } else {
            match best_with_key(s, k) {
                None => Some(x),
                Some(y) => if outranks(x, y) { Some(x) } else { Some(y) },
            }
        }),
{
    assert(s.push(x).drop_last() =~= s);
}

proof fn lemma_best_found(s: Seq<Candidate>, k: (int, int, int))
    ensures
        best_with_key(s, k) is Some <==> exists|j: int| 0 <= j < s.len() && tab_key((#[trigger] s[j]).1) == k,
        best_with_key(s, k) is Some ==> s.contains(best_with_key(s, k)->0) && tab_key((best_with_key(s, k)->0).1) == k,
    decreases s.len(),
{
    if s.len() > 0 {
        lemma_best_found(s.drop_last(), k);
        if exists|j: int| 0 <= j < s.len() && tab_key((#[trigger] s[j]).1) == k {
            let j = choose|j: int| 0 <= j < s.len() && tab_key((#[trigger] s[j]).1) == k;
            if j < s.len() - 1 {
                assert(s.drop_last()[j] == s[j]);
            }
        }
        if best_with_key(s.drop_last(), k) is Some {
            let m = best_with_key(s.drop_last(), k)->0;
            let w = choose|w: int| 0 <= w < s.drop_last().len() && s.drop_last()[w] == m;
            assert(s[w] == m);
            assert(tab_key(s[w].1) == k);
        }
        if exists|j: int| 0 <= j < s.drop_last().len() && tab_key((#[trigger] s.drop_last()[j]).1) == k {
            let j = choose|j: int| 0 <= j < s.drop_last().len() && tab_key((#[trigger] s.drop_last()[j]).1) == k;
            assert(s[j] == s.drop_last()[j]);
        }
        assert(s[s.len() - 1] == s.last());
    }
}

/// The entry `e` (chart index, note index) as a candidate.
pub open spec fn entry(charts: Seq<TabNoteChart>, e: (usize, usize)) -> Candidate {
    (charts[e.0 as int].difficulty, charts[e.0 as int].notes@[e.1 as int])
}

/// `kept` is the merge so far of the candidates `cands`.
pub open spec fn kept_merge(charts: Seq<TabNoteChart>, kept: Seq<(usize, usize)>, cands: Seq<Candidate>, start: u64, end: u64) -> bool {
    &&& forall|i: int| 0 <= i < kept.len() ==> (#[trigger] kept[i]).0 < charts.len() && kept[i].1 < charts[kept[i].0 as int].notes@.len()
    &&& forall|i: int| 0 <= i < kept.len() ==> in_window((#[trigger] entry(charts, kept[i])).1, start, end) && entry(charts, kept[i]).1.well_formed()
    &&& forall|i: int, j: int| 0 <= i < j < kept.len() ==> key_lt(tab_key(entry(charts, #[trigger] kept[i]).1), tab_key(entry(charts, #[trigger] kept[j]).1))
    &&& forall|i: int| 0 <= i < kept.len() ==> best_with_key(cands, tab_key(entry(charts, #[trigger] kept[i]).1)) == Some(entry(charts, kept[i]))
    &&& forall|j: int| 0 <= j < cands.len() ==> exists|i: int| 0 <= i < kept.len() && tab_key(entry(charts, kept[i]).1) == tab_key((#[trigger] cands[j]).1)
}

fn tab_key_less(a: &TabNote, b: &TabNote) -> (r: bool)
    ensures
        r == key_lt(tab_key(*a), tab_key(*b)),
{
    a.time < b.time || (a.time == b.time && (a.string < b.string || (a.string == b.string && a.fret < b.fret)))
}

fn tab_key_eq(a: &TabNote, b: &TabNote) -> (r: bool)
    ensures
        r == (tab_key(*a) == tab_key(*b)),
{
    a.time == b.time && a.string == b.string && a.fret == b.fret
}

fn techs_le_exec(x: &Vec<Techniques>, y: &Vec<Techniques>) -> (r: bool)
    ensures
        r == techs_le(x@, y@),
{
    let mut i: usize = 0;
    assert(x@.subrange(0, x@.len() as int) =~= x@);
    assert(y@.subrange(0, y@.len() as int) =~= y@);
    while i < x.len() && i < y.len() && x[i].code() == y[i].code()
        invariant
            i <= x@.len(),
            i <= y@.len(),
            techs_le(x@, y@) == techs_le(x@.subrange(i as int, x@.len() as int), y@.subrange(i as int, y@.len() as int)),
        decreases x.len() - i,
    {
        proof {
            let xs = x@.subrange(i as int, x@.len() as int);
            let ys = y@.subrange(i as int, y@.len() as int);
            assert(xs.drop_first() =~= x@.subrange(i + 1, x@.len() as int));
            assert(ys.drop_first() =~= y@.subrange(i + 1, y@.len() as int));
            assert(xs[0] == x@[i as int] && ys[0] == y@[i as int]);
        }
        i = i + 1;
    }
    let ghost xs = x@.subrange(i as int, x@.len() as int);
    let ghost ys = y@.subrange(i as int, y@.len() as int);
    if i == x.len() {
        assert(xs.len() == 0);
        true
    } else if i == y.len() {
        assert(ys.len() == 0);
        false
    } else {
        assert(xs[0] == x@[i as int] && ys[0] == y@[i as int]);
        x[i].code() < y[i].code()
    }
}

fn content_le_exec(a: &TabNote, b: &TabNote) -> (r: bool)
    ensures
        r == content_le(*a, *b),
{
    if a.sustain != b.sustain {
        a.sustain < b.sustain
    } else if a.anchor_fret != b.anchor_fret {
        a.anchor_fret < b.anchor_fret
    } else if a.slide_to != b.slide_to {
        a.slide_to < b.slide_to
    } else if a.slide_unpitch_to != b.slide_unpitch_to {
        a.slide_unpitch_to < b.slide_unpitch_to
    } else if a.max_bend != b.max_bend {
        a.max_bend < b.max_bend
    } else {
        techs_le_exec(&a.techniques, &b.techniques)
    }
}

/// Adds candidate `(chart c, note n)` to a merge in progress.
fn merge_one(
    kept: &mut Vec<(usize, usize)>,
    charts: &Vec<TabNoteChart>,
    c: usize,
    n: usize,
    Ghost(cands): Ghost<Seq<Candidate>>,
    start: u64,
    end: u64,
)
    requires
        kept_merge(charts@, old(kept)@, cands, start, end),
        c < charts@.len(),
        n < charts@[c as int].notes@.len(),
        in_window(charts@[c as int].notes@[n as int], start, end),
        charts@[c as int].notes@[n as int].well_formed(),
    ensures
        kept_merge(charts@, final(kept)@, cands.push(entry(charts@, (c, n))), start, end),
{
    let ghost x = entry(charts@, (c, n));
    let ghost p = cands.push(x);
    let note = &charts[c].notes[n];
    let mut q: usize = 0;
    while q < kept.len() && tab_key_less(&charts[kept[q].0].notes[kept[q].1], note)
        invariant
            q <= kept@.len(),
            kept_merge(charts@, kept@, cands, start, end),
            kept@ == old(kept)@,
            forall|i: int| 0 <= i < q ==> key_lt(tab_key(entry(charts@, #[trigger] kept@[i]).1), tab_key(x.1)),
            *note == x.1,
        decreases kept.len() - q,
    {
        assert(entry(charts@, kept@[q as int]).1 == charts@[kept@[q as int].0 as int].notes@[kept@[q as int].1 as int]);
        q = q + 1;
    }
    let ghost before = kept@;
    if q < kept.len() && tab_key_eq(&charts[kept[q].0].notes[kept[q].1], note) {
        let (oc, on) = kept[q];
        let old_note = &charts[oc].notes[on];
        let d_new = charts[c].difficulty;
        let d_old = charts[oc].difficulty;
        let wins = d_new > d_old || (d_new == d_old && content_le_exec(old_note, note));
        proof {
            lemma_best_push(cands, x, tab_key(x.1));
            assert(best_with_key(cands, tab_key(x.1)) == Some(entry(charts@, before[q as int])));
        }
        if wins {
            kept.set(q, (c, n));
        }
        proof {
            assert forall|i: int| 0 <= i < kept@.len() implies best_with_key(p, tab_key(entry(charts@, #[trigger] kept@[i]).1)) == Some(entry(charts@, kept@[i])) by {
                lemma_best_push(cands, x, tab_key(entry(charts@, kept@[i]).1));
                if i != q {
                    assert(kept@[i] == before[i]);
                    if i < q {
                        assert(key_lt(tab_key(entry(charts@, before[i]).1), tab_key(entry(charts@, before[q as int]).1)));
                    } else {
                        assert(key_lt(tab_key(entry(charts@, before[q as int]).1), tab_key(entry(charts@, before[i]).1)));
                    }
                }
            }
            assert forall|j: int| 0 <= j < p.len() implies exists|i: int| 0 <= i < kept@.len() && tab_key(entry(charts@, kept@[i]).1) == tab_key((#[trigger] p[j]).1) by {
                if j < cands.len() {
                    assert(p[j] == cands[j]);
                    let i = choose|i: int| 0 <= i < before.len() && tab_key(entry(charts@, before[i]).1) == tab_key(cands[j].1);
                    assert(tab_key(entry(charts@, kept@[i]).1) == tab_key(entry(charts@, before[i]).1));
                } else {
                    assert(tab_key(entry(charts@, kept@[q as int]).1) == tab_key(p[j].1));
                }
            }
            assert forall|a: int, b: int| 0 <= a < b < kept@.len() implies key_lt(tab_key(entry(charts@, #[trigger] kept@[a]).1), tab_key(entry(charts@, #[trigger] kept@[b]).1)) by {
                assert(tab_key(entry(charts@, kept@[a]).1) == tab_key(entry(charts@, before[a]).1));
                assert(tab_key(entry(charts@, kept@[b]).1) == tab_key(entry(charts@, before[b]).1));
            }
            assert forall|i: int| 0 <= i < kept@.len() implies in_window((#[trigger] entry(charts@, kept@[i])).1, start, end) && entry(charts@, kept@[i]).1.well_formed() by {
                if i != q {
                    assert(kept@[i] == before[i]);
                }
            }
        }
    } else {
        proof {
            lemma_best_push(cands, x, tab_key(x.1));
            lemma_best_found(cands, tab_key(x.1));
            if best_with_key(cands, tab_key(x.1)) is Some {
                let j = choose|j: int| 0 <= j < cands.len() && tab_key((#[trigger] cands[j]).1) == tab_key(x.1);
                let i = choose|i: int| 0 <= i < before.len() && tab_key(entry(charts@, before[i]).1) == tab_key(cands[j].1);
                if i < q {
                } else if i > q {
                    assert(key_lt(tab_key(entry(charts@, before[q as int]).1), tab_key(entry(charts@, before[i]).1)));
                }
            }
        }
        kept.insert(q, (c, n));
        proof {
            assert(kept@[q as int] == (c, n));
            assert forall|i: int| 0 <= i < kept@.len() implies kept@[i] == (if i < q { before[i] } else if i == q { (c, n) } else { before[i - 1] }) by {}
            assert forall|a: int, b: int| 0 <= a < b < kept@.len() implies key_lt(tab_key(entry(charts@, #[trigger] kept@[a]).1), tab_key(entry(charts@, #[trigger] kept@[b]).1)) by {
                if b < q {
                } else if b == q {
                } else if a < q {
                    assert(key_lt(tab_key(entry(charts@, before[q as int]).1), tab_key(entry(charts@, before[b - 1]).1)) || b - 1 == q);
                } else if a == q {
                    assert(key_lt(tab_key(entry(charts@, before[q as int]).1), tab_key(entry(charts@, before[b - 1]).1)) || b - 1 == q);
                } else {
                }
            }
            assert forall|i: int| 0 <= i < kept@.len() implies best_with_key(p, tab_key(entry(charts@, #[trigger] kept@[i]).1)) == Some(entry(charts@, kept@[i])) by {
                lemma_best_push(cands, x, tab_key(entry(charts@, kept@[i]).1));
                if i < q {
                    assert(key_lt(tab_key(entry(charts@, before[i]).1), tab_key(x.1)));
                } else if i > q {
                    assert(key_lt(tab_key(entry(charts@, before[q as int]).1), tab_key(entry(charts@, before[i - 1]).1)) || i - 1 == q);
                }
            }
            assert forall|j: int| 0 <= j < p.len() implies exists|i: int| 0 <= i < kept@.len() && tab_key(entry(charts@, kept@[i]).1) == tab_key((#[trigger] p[j]).1) by {
                if j < cands.len() {
                    assert(p[j] == cands[j]);
                    let i = choose|i: int| 0 <= i < before.len() && tab_key(entry(charts@, before[i]).1) == tab_key(cands[j].1);
                    if i < q {
                        assert(kept@[i] == before[i]);
                    } else {
                        assert(kept@[i + 1] == before[i]);
                    }
                } else {
                    assert(kept@[q as int] == (c, n));
                }
            }
        }
    }
}

/// Merges the notes of the selected charts that stand on a string, have a
/// valid primary fret, and sound within `[window_start, window_end]`: one
/// note per (onset, string, fret), sorted by that key. Between notes that
/// share a key, the one of the more difficult chart is kept, and between
/// charts of equal difficulty the one greater by `content_le`; the result
/// does not depend on the order in which the charts are listed.
pub fn merge_visible_notes(
    charts: &Vec<TabNoteChart>,
    selected: &Vec<usize>,
    window_start: u64,
    window_end: u64,
) -> (r: Vec<TimelineNote>)
    requires
        valid_selection(charts@, selected@),
        crate::chart::charts_well_formed(charts@),
    ensures
        is_merge_of(r@, candidates(charts@, selected@, selected@.len() as int, window_start, window_end)),
{
    let mut kept: Vec<(usize, usize)> = Vec::new();
    let mut c: usize = 0;
    while c < selected.len()
        invariant
            c <= selected.len(),
            valid_selection(charts@, selected@),
            crate::chart::charts_well_formed(charts@),
            kept_merge(charts@, kept@, candidates(charts@, selected@, c as int, window_start, window_end), window_start, window_end),
        decreases selected.len() - c,
    {
        let ci = selected[c];
        let chart = &charts[ci];
        let ghost start = candidates(charts@, selected@, c as int, window_start, window_end);
        assert(chart.well_formed());
        let mut j: usize = 0;
        assert(start + note_candidates(chart.notes@, 0, window_start, window_end, chart.difficulty) =~= start);
        while j < chart.notes.len()
            invariant
                j <= chart.notes@.len(),
                chart.well_formed(),
                ci < charts@.len(),
                *chart == charts@[ci as int],
                kept_merge(charts@, kept@, start + note_candidates(chart.notes@, j as int, window_start, window_end, chart.difficulty), window_start, window_end),
            decreases chart.notes.len() - j,
        {
            let n = &chart.notes[j];
            let ghost prev = start + note_candidates(chart.notes@, j as int, window_start, window_end, chart.difficulty);
            assert(n.well_formed());
            if n.string >= 0 && n.fret >= 0 && n.time + n.sustain >= window_start && n.time <= window_end {
                merge_one(&mut kept, charts, ci, j, Ghost(prev), window_start, window_end);
                assert(prev.push(entry(charts@, (ci, j))) =~= start + note_candidates(chart.notes@, j + 1, window_start, window_end, chart.difficulty));
            } else {
                assert(prev =~= start + note_candidates(chart.notes@, j + 1, window_start, window_end, chart.difficulty));
            }
            j = j + 1;
        }
        c = c + 1;
    }
    let ghost cands = candidates(charts@, selected@, selected@.len() as int, window_start, window_end);
    let mut out: Vec<TimelineNote> = Vec::new();
    let mut i: usize = 0;
    while i < kept.len()
        invariant
            i <= kept@.len(),
            kept_merge(charts@, kept@, cands, window_start, window_end),
            out@.len() == i,
            forall|t: int| 0 <= t < i ==> (#[trigger] out@[t])@ == timeline_view(entry(charts@, kept@[t]).1),
        decreases kept.len() - i,
    {
        let (ec, en) = kept[i];
        assert(entry(charts@, kept@[i as int]).1 == charts@[ec as int].notes@[en as int]);
        let t = to_timeline_note(&charts[ec].notes[en]);
        out.push(t);
        i = i + 1;
    }
    proof {
        assert forall|a: int| 0 <= a < out@.len() implies view_key(out@[a]@) == tab_key(entry(charts@, kept@[a]).1) by {}
        assert forall|a: int, b: int| 0 <= a < b < out@.len() implies key_lt(view_key((#[trigger] out@[a])@), view_key((#[trigger] out@[b])@)) by {
            assert(view_key(out@[a]@) == tab_key(entry(charts@, kept@[a]).1));
            assert(view_key(out@[b]@) == tab_key(entry(charts@, kept@[b]).1));
        }
        assert forall|a: int| 0 <= a < out@.len() implies {
            &&& #[trigger] best_with_key(cands, view_key(out@[a]@)) is Some
            &&& out@[a]@ == timeline_view((best_with_key(cands, view_key(out@[a]@))->0).1)
        } by {
            assert(view_key(out@[a]@) == tab_key(entry(charts@, kept@[a]).1));
        }
        assert forall|j: int| 0 <= j < cands.len() implies exists|a: int| 0 <= a < out@.len() && view_key(out@[a]@) == tab_key((#[trigger] cands[j]).1) by {
            let a = choose|a: int| 0 <= a < kept@.len() && tab_key(entry(charts@, kept@[a]).1) == tab_key(cands[j].1);
            assert(view_key(out@[a]@) == tab_key(entry(charts@, kept@[a]).1));
        }
    }
    out
}

fn copy_techniques(v: &Vec<Techniques>) -> (r: Vec<Techniques>)
    ensures
        r@ == v@,
{
    let mut r: Vec<Techniques> = Vec::new();
    let mut i: usize = 0;
    while i < v.len()
        invariant
            i <= v@.len(),
            r@ == v@.subrange(0, i as int),
        decreases v.len() - i,
    {
        r.push(v[i]);
        proof {
            assert(v@.subrange(0, i + 1) =~= v@.subrange(0, i as int).push(v@[i as int]));
        }
        i = i + 1;
    }
    assert(v@.subrange(0, v@.len() as int) =~= v@);
    r
}

fn push_fret_exec(s: &mut Vec<i32>, candidate: i64, fret: i32)
    requires
        candidate <= 0x7fff_ffff,
    ensures
        final(s)@ == push_fret(old(s)@, candidate as int, fret),
{
    if candidate < 0 || candidate == fret as i64 {
        return;
    }
    let mut i: usize = 0;
    while i < s.len()
        invariant
            i <= s@.len(),
            s@ == old(s)@,
            0 <= candidate,
            candidate != fret,
            forall|k: int| 0 <= k < i ==> s@[k] != candidate,
        decreases s.len() - i,
    {
        if s[i] as i64 == candidate {
            assert(s@.contains(candidate as i32)) by {
                assert(s@[i as int] == candidate as i32);
            }
            return;
        }
        i = i + 1;
    }
    s.push(candidate as i32);
}

/// Builds the timeline note for a chart note.
pub fn to_timeline_note(n: &TabNote) -> (r: TimelineNote)
    requires
        n.string >= 0,
        n.fret + (n.max_bend + 99) / 100 <= 0x7fff_ffff,
    ensures
        r@ == timeline_view(*n),
{
    let mut extra: Vec<i32> = Vec::new();
    push_fret_exec(&mut extra, n.slide_to as i64, n.fret);
    push_fret_exec(&mut extra, n.slide_unpitch_to as i64, n.fret);
    push_fret_exec(&mut extra, n.anchor_fret as i64, n.fret);
    if n.max_bend > 0 {
        push_fret_exec(&mut extra, n.fret as i64 + (n.max_bend as i64 + 99) / 100, n.fret);
    }
    TimelineNote {
        time: n.time,
        sustain: n.sustain,
        string_index: n.string as usize,
        fret: n.fret,
        techniques: copy_techniques(&n.techniques),
        additional_frets: extra,
        slide_target: if n.slide_to >= 0 { Some(n.slide_to) } else { None },
        slide_unpitched_target: if n.slide_unpitch_to >= 0 { Some(n.slide_unpitch_to) } else { None },
    }
}

pub open spec fn max_int(a: int, b: int) -> int {
    if a >= b {
        a
    } else {
        b
    }
}

/// One more than the highest string among the first `j` notes, or 0.
pub open spec fn notes_string_count(notes: Seq<TabNote>, j: int) -> int
    decreases j,
{
    if j <= 0 {
        0
    } else {
        let s = notes[j - 1].string;
        max_int(notes_string_count(notes, j - 1), if s >= 0 { s + 1 } else { 0 })
    }
}

/// One more than the highest string used by the first `c` selected charts, or 0.
pub open spec fn string_count_for(charts: Seq<TabNoteChart>, selected: Seq<usize>, c: int) -> int
    decreases c,
{
    if c <= 0 {
        0
    } else {
        let notes = charts[selected[c - 1] as int].notes@;
        max_int(string_count_for(charts, selected, c - 1), notes_string_count(notes, notes.len() as int))
    }
}

/// The number of strings the selected charts use: one more than the
/// highest string index of any of their notes, or 0 when none stands on
/// a string.
pub fn string_count_of(charts: &Vec<TabNoteChart>, selected: &Vec<usize>) -> (r: usize)
    requires
        valid_selection(charts@, selected@),
    ensures
        r == string_count_for(charts@, selected@, selected@.len() as int),
{
    let mut count: usize = 0;
    let mut c: usize = 0;
    while c < selected.len()
        invariant
            c <= selected.len(),
            valid_selection(charts@, selected@),
            count == string_count_for(charts@, selected@, c as int),
            count <= 0x8000_0000,
        decreases selected.len() - c,
    {
        let chart = &charts[selected[c]];
        let mut m: usize = 0;
        let mut j: usize = 0;
        while j < chart.notes.len()
            invariant
                j <= chart.notes@.len(),
                m == notes_string_count(chart.notes@, j as int),
                m <= 0x8000_0000,
            decreases chart.notes.len() - j,
        {
            let s = chart.notes[j].string;
            if s >= 0 && (s as usize) + 1 > m {
                m = (s as usize) + 1;
            }
            j = j + 1;
        }
        if m > count {
            count = m;
        }
        c = c + 1;
    }
    count
}

} // verus!

verus! {

pub open spec fn key_order() -> spec_fn((int, int, int), (int, int, int)) -> bool {
    |a: (int, int, int), b: (int, int, int)| key_lt(a, b)
}

pub open spec fn merged_keys(r: Seq<TimelineNote>) -> Seq<(int, int, int)> {
    r.map_values(|t: TimelineNote| view_key(t@))
}

proof fn lemma_merged_keys(r: Seq<TimelineNote>, cands: Seq<Candidate>)
    requires
        is_merge_of(r, cands),
    ensures
        strictly_sorted(merged_keys(r), key_order()),
        forall|k: (int, int, int)| merged_keys(r).contains(k) <==> exists|j: int| 0 <= j < cands.len() && tab_key((#[trigger] cands[j]).1) == k,
{
    let ks = merged_keys(r);
    assert forall|i: int, j: int| 0 <= i < j < ks.len() implies (key_order())(#[trigger] ks[i], #[trigger] ks[j]) by {
        assert(key_lt(view_key(r[i]@), view_key(r[j]@)));
    }
    assert forall|k: (int, int, int)| ks.contains(k) <==> exists|j: int| 0 <= j < cands.len() && tab_key((#[trigger] cands[j]).1) == k by {
        lemma_best_found(cands, k);
        if ks.contains(k) {
            let i = choose|i: int| 0 <= i < ks.len() && ks[i] == k;
            assert(best_with_key(cands, view_key(r[i]@)) is Some);
        }
        if exists|j: int| 0 <= j < cands.len() && tab_key((#[trigger] cands[j]).1) == k {
            let j = choose|j: int| 0 <= j < cands.len() && tab_key((#[trigger] cands[j]).1) == k;
            let i = choose|i: int| 0 <= i < r.len() && view_key(r[i]@) == tab_key(cands[j].1);
            assert(ks[i] == k);
        }
    }
}

proof fn lemma_techs_total(x: Seq<Techniques>, y: Seq<Techniques>)
    ensures
        techs_le(x, y) || techs_le(y, x),
    decreases x.len(),
{
    if x.len() > 0 && y.len() > 0 && x[0].spec_code() == y[0].spec_code() {
        lemma_techs_total(x.drop_first(), y.drop_first());
    }
}

proof fn lemma_techs_trans(x: Seq<Techniques>, y: Seq<Techniques>, z: Seq<Techniques>)
    requires
        techs_le(x, y),
        techs_le(y, z),
    ensures
        techs_le(x, z),
    decreases x.len(),
{
    if x.len() > 0 && y.len() > 0 && z.len() > 0 && x[0].spec_code() == y[0].spec_code() && y[0].spec_code() == z[0].spec_code() {
        lemma_techs_trans(x.drop_first(), y.drop_first(), z.drop_first());
    }
}

proof fn lemma_techs_antisym(x: Seq<Techniques>, y: Seq<Techniques>)
    requires
        techs_le(x, y),
        techs_le(y, x),
    ensures
        x == y,
    decreases x.len(),
{
    if x.len() == 0 {
        assert(x =~= y);
    } else {
        lemma_techs_antisym(x.drop_first(), y.drop_first());
        assert(x[0] == y[0]);
        assert(x =~= seq![x[0]] + x.drop_first());
        assert(y =~= seq![y[0]] + y.drop_first());
    }
}

proof fn lemma_outranks_total(a: Candidate, b: Candidate)
    ensures
        outranks(a, b) || outranks(b, a),
{
    lemma_techs_total(a.1.techniques@, b.1.techniques@);
}

proof fn lemma_outranks_trans(a: Candidate, b: Candidate, c: Candidate)
    requires
        outranks(a, b),
        outranks(b, c),
    ensures
        outranks(a, c),
{
    if a.0 == b.0 && b.0 == c.0 {
        if c.1.sustain == b.1.sustain && b.1.sustain == a.1.sustain && c.1.anchor_fret == b.1.anchor_fret && b.1.anchor_fret == a.1.anchor_fret
            && c.1.slide_to == b.1.slide_to && b.1.slide_to == a.1.slide_to && c.1.slide_unpitch_to == b.1.slide_unpitch_to
            && b.1.slide_unpitch_to == a.1.slide_unpitch_to && c.1.max_bend == b.1.max_bend && b.1.max_bend == a.1.max_bend {
            lemma_techs_trans(c.1.techniques@, b.1.techniques@, a.1.techniques@);
        }
    }
}

/// Candidates that outrank each other with the same key show the same.
proof fn lemma_outranks_equal_view(a: Candidate, b: Candidate)
    requires
        outranks(a, b),
        outranks(b, a),
        tab_key(a.1) == tab_key(b.1),
        a.1.string >= 0,
    ensures
        timeline_view(a.1) == timeline_view(b.1),
{
    assert(a.0 == b.0);
    lemma_techs_antisym(a.1.techniques@, b.1.techniques@);
}

proof fn lemma_best_is_max(s: Seq<Candidate>, k: (int, int, int), x: Candidate)
    requires
        s.contains(x),
        tab_key(x.1) == k,
    ensures
        best_with_key(s, k) is Some,
        outranks(best_with_key(s, k)->0, x),
    decreases s.len(),
{
    let t = s.drop_last();
    let l = s.last();
    lemma_best_found(s, k);
    assert(s[s.len() - 1] == l);
    if l == x {
        match best_with_key(t, k) {
            None => { lemma_outranks_total(x, x); },
            Some(y) => { lemma_outranks_total(x, y); lemma_outranks_total(x, x); },
        }
    } else {
        let j = choose|j: int| 0 <= j < s.len() && s[j] == x;
        assert(t[j] == x);
        lemma_best_is_max(t, k, x);
        let y = best_with_key(t, k)->0;
        if tab_key(l.1) == k {
            lemma_outranks_total(l, y);
            if outranks(l, y) {
                lemma_outranks_trans(l, y, x);
            }
        }
    }
}

/// Two merges of candidate lists with the same members hold the same
/// notes in the same order.
pub proof fn lemma_merges_agree(r1: Seq<TimelineNote>, r2: Seq<TimelineNote>, c1: Seq<Candidate>, c2: Seq<Candidate>)
    requires
        is_merge_of(r1, c1),
        is_merge_of(r2, c2),
        forall|x: Candidate| c1.contains(x) <==> c2.contains(x),
        forall|x: Candidate| c1.contains(x) ==> x.1.string >= 0,
    ensures
        r1.len() == r2.len(),
        forall|i: int| 0 <= i < r1.len() ==> (#[trigger] r1[i])@ == r2[i]@,
{
    lemma_merged_keys(r1, c1);
    lemma_merged_keys(r2, c2);
    assert forall|k: (int, int, int)| merged_keys(r1).contains(k) <==> merged_keys(r2).contains(k) by {
        if exists|j: int| 0 <= j < c1.len() && tab_key((#[trigger] c1[j]).1) == k {
            let j = choose|j: int| 0 <= j < c1.len() && tab_key((#[trigger] c1[j]).1) == k;
            assert(c1.contains(c1[j]));
            let w = choose|w: int| 0 <= w < c2.len() && c2[w] == c1[j];
            assert(tab_key(c2[w].1) == k);
        }
        if exists|j: int| 0 <= j < c2.len() && tab_key((#[trigger] c2[j]).1) == k {
            let j = choose|j: int| 0 <= j < c2.len() && tab_key((#[trigger] c2[j]).1) == k;
            assert(c2.contains(c2[j]));
            let w = choose|w: int| 0 <= w < c1.len() && c1[w] == c2[j];
            assert(tab_key(c1[w].1) == k);
        }
    }
    assert(strict_order(key_order()));
    lemma_strictly_sorted_unique(merged_keys(r1), merged_keys(r2), key_order());
    assert(merged_keys(r1).len() == r2.len());
    assert forall|i: int| 0 <= i < r1.len() implies (#[trigger] r1[i])@ == r2[i]@ by {
        assert(merged_keys(r1)[i] == merged_keys(r2)[i]);
        let k = view_key(r1[i]@);
        assert(k == view_key(r2[i]@));
        assert(best_with_key(c1, k) is Some);
        assert(best_with_key(c2, k) is Some);
        lemma_best_found(c1, k);
        lemma_best_found(c2, k);
        let m1 = best_with_key(c1, k)->0;
        let m2 = best_with_key(c2, k)->0;
        lemma_best_is_max(c2, k, m1);
        lemma_best_is_max(c1, k, m2);
        lemma_outranks_equal_view(m1, m2);
    }
}

/// Two merges of the same candidates hold the same notes in the same order.
pub proof fn lemma_merge_unique(r1: Seq<TimelineNote>, r2: Seq<TimelineNote>, cands: Seq<Candidate>)
    requires
        is_merge_of(r1, cands),
        is_merge_of(r2, cands),
        forall|x: Candidate| cands.contains(x) ==> x.1.string >= 0,
    ensures
        r1.len() == r2.len(),
        forall|i: int| 0 <= i < r1.len() ==> (#[trigger] r1[i])@ == r2[i]@,
{
    lemma_merges_agree(r1, r2, cands, cands);
}

proof fn lemma_note_candidates_contains(notes: Seq<TabNote>, j: int, start: u64, end: u64, d: i32, x: Candidate)
    requires
        0 <= j <= notes.len(),
    ensures
        note_candidates(notes, j, start, end, d).contains(x) <==> (x.0 == d && in_window(x.1, start, end)
            && exists|t: int| 0 <= t < j && notes[t] == x.1),
    decreases j,
{
    if j > 0 {
        lemma_note_candidates_contains(notes, j - 1, start, end, d, x);
        let prev = note_candidates(notes, j - 1, start, end, d);
        if in_window(notes[j - 1], start, end) {
            crate::reconcile::lemma_push_contains(prev, (d, notes[j - 1]), x);
        }
        if exists|t: int| 0 <= t < j && notes[t] == x.1 {
            let t = choose|t: int| 0 <= t < j && notes[t] == x.1;
            if t < j - 1 {
                assert(exists|t2: int| 0 <= t2 < j - 1 && notes[t2] == x.1);
            }
        }
    }
}

/// The selected chart at position `q` offers candidate `x`.
pub open spec fn offers(chart: TabNoteChart, x: Candidate, start: u64, end: u64) -> bool {
    x.0 == chart.difficulty && in_window(x.1, start, end) && chart.notes@.contains(x.1)
}

proof fn lemma_candidates_contains(charts: Seq<TabNoteChart>, sel: Seq<usize>, c: int, start: u64, end: u64, x: Candidate)
    requires
        0 <= c <= sel.len(),
    ensures
        candidates(charts, sel, c, start, end).contains(x) <==> exists|q: int| 0 <= q < c && offers(charts[sel[q] as int], x, start, end),
    decreases c,
{
    if c > 0 {
        lemma_candidates_contains(charts, sel, c - 1, start, end, x);
        let chart = charts[sel[c - 1] as int];
        let prev = candidates(charts, sel, c - 1, start, end);
        let tail = note_candidates(chart.notes@, chart.notes@.len() as int, start, end, chart.difficulty);
        lemma_note_candidates_contains(chart.notes@, chart.notes@.len() as int, start, end, chart.difficulty, x);
        if (prev + tail).contains(x) {
            let w = choose|w: int| 0 <= w < (prev + tail).len() && (prev + tail)[w] == x;
            if w < prev.len() {
                assert(prev[w] == x);
                let q = choose|q: int| 0 <= q < c - 1 && offers(charts[sel[q] as int], x, start, end);
                assert(0 <= q < c && offers(charts[sel[q] as int], x, start, end));
            } else {
                assert(tail[w - prev.len()] == x);
                assert(offers(chart, x, start, end));
            }
        }
        if exists|q: int| 0 <= q < c && offers(charts[sel[q] as int], x, start, end) {
            let q = choose|q: int| 0 <= q < c && offers(charts[sel[q] as int], x, start, end);
            if q < c - 1 {
                let w = choose|w: int| 0 <= w < prev.len() && prev[w] == x;
                assert((prev + tail)[w] == x);
            } else {
                let w = choose|w: int| 0 <= w < tail.len() && tail[w] == x;
                assert((prev + tail)[prev.len() + w] == x);
            }
        }
    }
}

/// A candidate of a selection comes from a chart of the list within the
/// threshold, and every such chart's notes in the window are candidates.
proof fn lemma_candidates_of_charts(charts: Seq<TabNoteChart>, threshold: int, sel: Seq<usize>, start: u64, end: u64, x: Candidate)
    requires
        crate::chart::is_selection(charts, sel, threshold),
        charts.len() <= usize::MAX,
    ensures
        candidates(charts, sel, sel.len() as int, start, end).contains(x) <==> exists|c: TabNoteChart|
            charts.contains(c) && c.difficulty <= threshold && #[trigger] offers(c, x, start, end),
{
    lemma_candidates_contains(charts, sel, sel.len() as int, start, end, x);
    if exists|q: int| 0 <= q < sel.len() && offers(charts[sel[q] as int], x, start, end) {
        let q = choose|q: int| 0 <= q < sel.len() && offers(charts[sel[q] as int], x, start, end);
        assert(charts.contains(charts[sel[q] as int]));
    }
    if exists|c: TabNoteChart| charts.contains(c) && c.difficulty <= threshold && #[trigger] offers(c, x, start, end) {
        let c = choose|c: TabNoteChart| charts.contains(c) && c.difficulty <= threshold && #[trigger] offers(c, x, start, end);
        let k = choose|k: int| 0 <= k < charts.len() && charts[k] == c;
        let ku = k as usize;
        assert(ku as int == k);
        assert(charts[ku as int].difficulty <= threshold);
        assert(sel.contains(ku));
        let q = choose|q: int| 0 <= q < sel.len() && sel[q] == ku;
        assert(offers(charts[sel[q] as int], x, start, end));
    }
}

/// Merging is deterministic: any two results of merging the same charts
/// at the same difficulty threshold over the same window hold the same
/// notes in the same order, whichever valid selection listed the charts.
pub proof fn lemma_merge_deterministic(
    charts: Seq<TabNoteChart>,
    threshold: int,
    sel1: Seq<usize>,
    sel2: Seq<usize>,
    r1: Seq<TimelineNote>,
    r2: Seq<TimelineNote>,
    start: u64,
    end: u64,
)
    requires
        crate::chart::is_selection(charts, sel1, threshold),
        crate::chart::is_selection(charts, sel2, threshold),
        is_merge_of(r1, candidates(charts, sel1, sel1.len() as int, start, end)),
        is_merge_of(r2, candidates(charts, sel2, sel2.len() as int, start, end)),
    ensures
        r1.len() == r2.len(),
        forall|i: int| 0 <= i < r1.len() ==> (#[trigger] r1[i])@ == r2[i]@,
{
    crate::chart::lemma_selection_unique(charts, sel1, sel2, threshold);
    let cands = candidates(charts, sel1, sel1.len() as int, start, end);
    assert forall|x: Candidate| cands.contains(x) implies x.1.string >= 0 by {
        lemma_candidates_contains(charts, sel1, sel1.len() as int, start, end, x);
    }
    lemma_merge_unique(r1, r2, cands);
}

/// The merge does not depend on the order in which the charts are listed:
/// two lists holding the same charts merge to the same notes in the same
/// order.
pub proof fn lemma_merge_ignores_chart_order(
    charts1: Seq<TabNoteChart>,
    charts2: Seq<TabNoteChart>,
    threshold: int,
    sel1: Seq<usize>,
    sel2: Seq<usize>,
    r1: Seq<TimelineNote>,
    r2: Seq<TimelineNote>,
    start: u64,
    end: u64,
)
    requires
        forall|c: TabNoteChart| charts1.contains(c) <==> charts2.contains(c),
        charts1.len() <= usize::MAX,
        charts2.len() <= usize::MAX,
        crate::chart::is_selection(charts1, sel1, threshold),
        crate::chart::is_selection(charts2, sel2, threshold),
        is_merge_of(r1, candidates(charts1, sel1, sel1.len() as int, start, end)),
        is_merge_of(r2, candidates(charts2, sel2, sel2.len() as int, start, end)),
    ensures
        r1.len() == r2.len(),
        forall|i: int| 0 <= i < r1.len() ==> (#[trigger] r1[i])@ == r2[i]@,
{
    let c1 = candidates(charts1, sel1, sel1.len() as int, start, end);
    let c2 = candidates(charts2, sel2, sel2.len() as int, start, end);
    assert forall|x: Candidate| c1.contains(x) <==> c2.contains(x) by {
        lemma_candidates_of_charts(charts1, threshold, sel1, start, end, x);
        lemma_candidates_of_charts(charts2, threshold, sel2, start, end, x);
    }
    assert forall|x: Candidate| c1.contains(x) implies x.1.string >= 0 by {
        lemma_candidates_contains(charts1, sel1, sel1.len() as int, start, end, x);
    }
    lemma_merges_agree(r1, r2, c1, c2);
}

/// The charts a selection lists.
pub open spec fn selected_charts(charts: Seq<TabNoteChart>, sel: Seq<usize>) -> Seq<TabNoteChart> {
    sel.map_values(|i: usize| charts[i as int])
}

/// Selection does not depend on the order in which the charts are listed:
/// two lists holding the same charts select the same charts.
pub proof fn lemma_selection_ignores_chart_order(
    charts1: Seq<TabNoteChart>,
    charts2: Seq<TabNoteChart>,
    threshold: int,
    sel1: Seq<usize>,
    sel2: Seq<usize>,
)
    requires
        forall|c: TabNoteChart| charts1.contains(c) <==> charts2.contains(c),
        charts1.len() <= usize::MAX,
        charts2.len() <= usize::MAX,
        crate::chart::is_selection(charts1, sel1, threshold),
        crate::chart::is_selection(charts2, sel2, threshold),
    ensures
        forall|c: TabNoteChart| selected_charts(charts1, sel1).contains(c) <==> selected_charts(charts2, sel2).contains(c),
{
    assert forall|c: TabNoteChart| selected_charts(charts1, sel1).contains(c) <==> selected_charts(charts2, sel2).contains(c) by {
        lemma_selected_contains(charts1, sel1, threshold, c);
        lemma_selected_contains(charts2, sel2, threshold, c);
    }
}

proof fn lemma_selected_contains(charts: Seq<TabNoteChart>, sel: Seq<usize>, threshold: int, c: TabNoteChart)
    requires
        crate::chart::is_selection(charts, sel, threshold),
        charts.len() <= usize::MAX,
    ensures
        selected_charts(charts, sel).contains(c) <==> (charts.contains(c) && c.difficulty <= threshold),
{
    let m = selected_charts(charts, sel);
    if m.contains(c) {
        let i = choose|i: int| 0 <= i < m.len() && m[i] == c;
        assert(sel[i] < charts.len());
        assert(charts[sel[i] as int] == c);
    }
    if charts.contains(c) && c.difficulty <= threshold {
        let k = choose|k: int| 0 <= k < charts.len() && charts[k] == c;
        let ku = k as usize;
        assert(ku as int == k);
        assert(charts[ku as int].difficulty <= threshold);
        assert(sel.contains(ku));
        let i = choose|i: int| 0 <= i < sel.len() && sel[i] == ku;
        assert(m[i] == charts[sel[i] as int]);
    }
}

} // verus!
