use string_timeline::chart::{select_charts_up_to, TabNote, TabNoteChart, Techniques};
use string_timeline::merge::{merge_visible_notes, string_count_of, to_timeline_note};
use string_timeline::note::{FretMarkerKey, FretMarkerRole, NoteKey, SustainSegmentKey, TimelineNote};
use string_timeline::sort::sort_ascending;
use string_timeline::tempo::{
    clamp_block_duration, collect_unique_note_times, default_block_duration,
    determine_initial_block_duration, estimate_beat_duration,
};

fn tab_note(time: u64, string: i32, fret: i32) -> TabNote {
    TabNote {
        time,
        techniques: Vec::new(),
        string,
        fret,
        anchor_fret: -1,
        sustain: 0,
        slide_to: -1,
        slide_unpitch_to: -1,
        max_bend: 0,
    }
}

fn chart_at(difficulty: i32, times: &[u64]) -> TabNoteChart {
    TabNoteChart {
        difficulty,
        notes: times.iter().map(|t| tab_note(*t, 0, 1)).collect(),
    }
}

fn plain_note(time: u64, string_index: usize, fret: i32) -> TimelineNote {
    TimelineNote {
        time,
        sustain: 0,
        string_index,
        fret,
        techniques: Vec::new(),
        additional_frets: Vec::new(),
        slide_target: None,
        slide_unpitched_target: None,
    }
}

#[test]
fn eight_even_onsets_give_two_second_blocks() {
    let times: Vec<u64> = (0..8).map(|i| i * 500_000).collect();
    assert_eq!(estimate_beat_duration(&times), Some(500_000));
    let charts = vec![chart_at(0, &times)];
    assert_eq!(determine_initial_block_duration(&charts, &vec![0]), 2_000_000);
}

#[test]
fn too_few_onsets_use_default_duration() {
    let times: Vec<u64> = (0..7).map(|i| i * 500_000).collect();
    let charts = vec![chart_at(0, &times)];
    assert_eq!(determine_initial_block_duration(&charts, &vec![0]), 10_000_000);
    assert_eq!(default_block_duration(), 10_000_000);
}

#[test]
fn fast_onsets_clamp_to_minimum_block() {
    let times: Vec<u64> = (0..9).map(|i| i * 260_000).collect();
    assert_eq!(estimate_beat_duration(&times), Some(260_000));
    let charts = vec![chart_at(0, &times)];
    assert_eq!(determine_initial_block_duration(&charts, &vec![0]), 1_200_000);
}

#[test]
fn tempo_at_upper_bound_folds_down() {
    // 240 bpm is outside [60, 240) and halves to 120 bpm
    let times: Vec<u64> = (0..9).map(|i| i * 250_000).collect();
    assert_eq!(estimate_beat_duration(&times), Some(500_000));
    let charts = vec![chart_at(0, &times)];
    assert_eq!(determine_initial_block_duration(&charts, &vec![0]), 2_000_000);
}

#[test]
fn slow_onsets_fold_up_by_octaves() {
    let times: Vec<u64> = (0..9).map(|i| i * 3_000_000).collect();
    assert_eq!(estimate_beat_duration(&times), Some(750_000));
    let charts = vec![chart_at(0, &times)];
    assert_eq!(determine_initial_block_duration(&charts, &vec![0]), 3_000_000);
}

#[test]
fn unusable_gaps_fall_back_to_default() {
    // seven gaps, one of them five seconds long, leave six usable ones
    let mut times: Vec<u64> = (0..7).map(|i| i * 500_000).collect();
    times.push(3_000_000 + 5_000_000);
    assert_eq!(estimate_beat_duration(&times), None);
    let charts = vec![chart_at(0, &times)];
    assert_eq!(determine_initial_block_duration(&charts, &vec![0]), 10_000_000);
}

#[test]
fn estimate_needs_two_onsets() {
    assert_eq!(estimate_beat_duration(&vec![]), None);
    assert_eq!(estimate_beat_duration(&vec![1_000]), None);
}

#[test]
fn even_count_median_averages_middle_tempi() {
    // gaps 0.5 s (120 bpm) four times and 0.4 s (150 bpm) four times
    let mut times: Vec<u64> = Vec::new();
    let mut t: u64 = 0;
    times.push(t);
    for i in 0..8 {
        t += if i % 2 == 0 { 500_000 } else { 400_000 };
        times.push(t);
    }
    // median tempo (120 + 150) / 2 = 135 bpm, a beat of 444_444 us
    assert_eq!(estimate_beat_duration(&times), Some(444_444));
}

#[test]
fn onsets_are_sorted_merged_and_filtered() {
    let chart = TabNoteChart {
        difficulty: 0,
        notes: vec![
            tab_note(1_000, 0, 1),
            tab_note(1_200, 1, 1),
            tab_note(0, 2, 1),
            tab_note(3_000, 0, 1),
            tab_note(5_000, -1, 1),
        ],
    };
    let charts = vec![chart];
    assert_eq!(collect_unique_note_times(&charts, &vec![0]), vec![0, 1_000, 3_000]);
}

#[test]
fn block_duration_is_clamped() {
    assert_eq!(clamp_block_duration(0), 1_200_000);
    assert_eq!(clamp_block_duration(20_000_000), 14_000_000);
    assert_eq!(clamp_block_duration(5_000_000), 5_000_000);
}

#[test]
fn sorting_orders_values() {
    assert_eq!(sort_ascending(&vec![5, 1, 4, 1, 3]), vec![1, 1, 3, 4, 5]);
    assert_eq!(sort_ascending(&vec![]), Vec::<u64>::new());
}

#[test]
fn zero_percent_selects_only_easiest_chart() {
    let charts = vec![chart_at(3, &[]), chart_at(0, &[]), chart_at(7, &[])];
    assert_eq!(select_charts_up_to(&charts, 0), vec![1]);
}

#[test]
fn selection_follows_threshold_and_orders_by_difficulty() {
    let charts = vec![chart_at(3, &[]), chart_at(0, &[]), chart_at(7, &[])];
    assert_eq!(select_charts_up_to(&charts, 50), vec![1, 0]);
    assert_eq!(select_charts_up_to(&charts, 100), vec![1, 0, 2]);
    assert_eq!(select_charts_up_to(&charts, 250), vec![1, 0, 2]);
    assert_eq!(select_charts_up_to(&Vec::new(), 100), Vec::<usize>::new());
}

#[test]
fn selection_keeps_list_order_among_equal_difficulties() {
    let charts = vec![chart_at(2, &[]), chart_at(0, &[]), chart_at(2, &[])];
    assert_eq!(select_charts_up_to(&charts, 100), vec![1, 0, 2]);
    let flat = vec![chart_at(0, &[]), chart_at(0, &[])];
    assert_eq!(select_charts_up_to(&flat, 0), vec![0, 1]);
}

#[test]
fn merge_keeps_last_writer_and_sorts() {
    let easy = TabNoteChart {
        difficulty: 0,
        notes: vec![tab_note(2_000_000, 1, 5), tab_note(1_000_000, 0, 3), tab_note(20_000_000, 0, 1)],
    };
    let mut bent = tab_note(1_000_000, 0, 3);
    bent.techniques = vec![Techniques::Bend];
    bent.max_bend = 150;
    let hard = TabNoteChart {
        difficulty: 1,
        notes: vec![bent, tab_note(1_500_000, -1, 2)],
    };
    let charts = vec![easy, hard];
    let merged = merge_visible_notes(&charts, &vec![0, 1], 0, 10_000_000);
    assert_eq!(merged.len(), 2);
    assert_eq!(merged[0].time, 1_000_000);
    assert_eq!(merged[0].techniques, vec![Techniques::Bend]);
    assert_eq!(merged[0].additional_frets, vec![5]);
    assert_eq!(merged[1].time, 2_000_000);
    assert_eq!(merged[1].string_index, 1);
    assert_eq!(string_count_of(&charts, &vec![0, 1]), 2);
}

#[test]
fn merge_drops_notes_outside_the_window() {
    let mut long = tab_note(1_000_000, 0, 3);
    long.sustain = 4_000_000;
    let chart = TabNoteChart {
        difficulty: 0,
        notes: vec![long, tab_note(2_000_000, 0, 4), tab_note(9_000_000, 0, 5)],
    };
    let merged = merge_visible_notes(&vec![chart], &vec![0], 4_000_000, 8_000_000);
    assert_eq!(merged.len(), 1);
    assert_eq!(merged[0].fret, 3);
}

#[test]
fn additional_frets_skip_duplicates_and_primary() {
    let mut n = tab_note(0, 0, 3);
    n.slide_to = 7;
    n.slide_unpitch_to = 7;
    n.anchor_fret = 3;
    n.max_bend = 100;
    let t = to_timeline_note(&n);
    assert_eq!(t.additional_frets, vec![7, 4]);
    assert_eq!(t.slide_target, Some(7));
    assert_eq!(t.slide_unpitched_target, Some(7));
}

#[test]
fn string_count_is_one_past_highest_string() {
    let chart = TabNoteChart { difficulty: 0, notes: vec![tab_note(0, 0, 1), tab_note(1, 4, 1), tab_note(2, -1, 1)] };
    assert_eq!(string_count_of(&vec![chart], &vec![0]), 5);
    assert_eq!(string_count_of(&Vec::new(), &Vec::new()), 0);
}

#[test]
fn note_keys_digest_metadata() {
    let mut n = plain_note(1_000, 2, 3);
    n.techniques = vec![Techniques::Slide];
    let k = NoteKey::new(&n);
    assert_eq!(k, NoteKey { time: 1_000, string_index: 2, fret: 3, metadata_hash: 9563 });
    n.additional_frets = vec![0];
    assert_eq!(NoteKey::new(&n).metadata_hash, 14235);
    n.additional_frets = Vec::new();
    n.slide_target = Some(2);
    assert_eq!(NoteKey::new(&n).metadata_hash, 9629);
    assert!(n.is_slide());
    assert_eq!(n.primary_slide_target(), Some(2));
    let seg = SustainSegmentKey::new(&n, 4);
    assert_eq!(seg.block_index, 4);
    assert_eq!(seg.note, NoteKey::new(&n));
    assert_eq!(FretMarkerKey::additional(&n, 6).role, FretMarkerRole::Additional(6));
    assert_eq!(FretMarkerKey::primary(&n).role, FretMarkerRole::Primary);
    assert_eq!(FretMarkerKey::slide_bar(&n).role, FretMarkerRole::SlideBar);
}

#[test]
fn slide_needs_technique_and_target() {
    let mut n = plain_note(0, 0, 3);
    n.slide_unpitched_target = Some(5);
    assert!(!n.is_slide());
    assert_eq!(n.primary_slide_target(), Some(5));
    n.techniques = vec![Techniques::Bend, Techniques::Slide];
    assert!(n.is_slide());
}

#[test]
fn merge_does_not_depend_on_chart_order() {
    let mut hard_note = tab_note(1_000_000, 0, 3);
    hard_note.techniques = vec![Techniques::Bend];
    let easy = TabNoteChart { difficulty: 0, notes: vec![tab_note(1_000_000, 0, 3), tab_note(500_000, 1, 2)] };
    let hard = TabNoteChart { difficulty: 4, notes: vec![hard_note, tab_note(2_000_000, 2, 7)] };
    let easy2 = TabNoteChart { difficulty: 0, notes: vec![tab_note(1_000_000, 0, 3), tab_note(500_000, 1, 2)] };
    let mut hard_note2 = tab_note(1_000_000, 0, 3);
    hard_note2.techniques = vec![Techniques::Bend];
    let hard2 = TabNoteChart { difficulty: 4, notes: vec![hard_note2, tab_note(2_000_000, 2, 7)] };
    let first = vec![easy, hard];
    let second = vec![hard2, easy2];
    let s1 = select_charts_up_to(&first, 100);
    let s2 = select_charts_up_to(&second, 100);
    assert_eq!(s1, vec![0, 1]);
    assert_eq!(s2, vec![1, 0]);
    let a = merge_visible_notes(&first, &s1, 0, 10_000_000);
    let b = merge_visible_notes(&second, &s2, 0, 10_000_000);
    let keys_a: Vec<NoteKey> = a.iter().map(NoteKey::new).collect();
    let keys_b: Vec<NoteKey> = b.iter().map(NoteKey::new).collect();
    assert_eq!(keys_a, keys_b);
    assert_eq!(a.len(), 3);
    assert_eq!(a[1].techniques, vec![Techniques::Bend]);
}

#[test]
fn merge_drops_notes_without_a_valid_fret() {
    let chart = TabNoteChart { difficulty: 0, notes: vec![tab_note(0, 0, -1), tab_note(0, 1, 2)] };
    let merged = merge_visible_notes(&vec![chart], &vec![0], 0, 10_000_000);
    assert_eq!(merged.len(), 1);
    assert_eq!(merged[0].fret, 2);
}

#[test]
fn equal_difficulty_conflicts_do_not_depend_on_chart_order() {
    let mut long = tab_note(1_000_000, 0, 3);
    long.sustain = 500_000;
    let short = tab_note(1_000_000, 0, 3);
    let a = TabNoteChart { difficulty: 2, notes: vec![long.clone_note()] };
    let b = TabNoteChart { difficulty: 2, notes: vec![short.clone_note()] };
    let a2 = TabNoteChart { difficulty: 2, notes: vec![long] };
    let b2 = TabNoteChart { difficulty: 2, notes: vec![short] };
    let first = vec![a, b];
    let second = vec![b2, a2];
    let x = merge_visible_notes(&first, &select_charts_up_to(&first, 100), 0, 10_000_000);
    let y = merge_visible_notes(&second, &select_charts_up_to(&second, 100), 0, 10_000_000);
    assert_eq!(x.len(), 1);
    assert_eq!(y.len(), 1);
    assert_eq!(x[0].sustain, 500_000);
    assert_eq!(y[0].sustain, 500_000);
}

trait CloneNote {
    fn clone_note(&self) -> TabNote;
}

impl CloneNote for TabNote {
    fn clone_note(&self) -> TabNote {
        TabNote {
            time: self.time,
            techniques: self.techniques.clone(),
            string: self.string,
            fret: self.fret,
            anchor_fret: self.anchor_fret,
            sustain: self.sustain,
            slide_to: self.slide_to,
            slide_unpitch_to: self.slide_unpitch_to,
            max_bend: self.max_bend,
        }
    }
}
