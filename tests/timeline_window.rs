use string_timeline::chart::{TabNote, TabNoteChart, Techniques};
use string_timeline::feed::{timeline_block_duration, timeline_window_seconds, visible_block_count, StringTimelineFeed};
use string_timeline::note::{NoteKey, SustainSegmentKey, TimelineNote};
use string_timeline::reconcile::{desired_primitives, BlockView, Instruction, Primitive, PrimitiveKey, reconcile_blocks};
use string_timeline::window::{blend, next_base, overlay_coverage, TimelineView};

fn plain_note(time: u64, string_index: usize, fret: i32) -> TimelineNote {
    TimelineNote {
        time,
        sustain: 0,
        string_index,
        fret,
        techniques: Vec::new(),
        additional_frets: Vec::new(),
        slide_target: None,
        slide_unpitched_target: None,
    }
}

fn indices(view: &TimelineView) -> Vec<u64> {
    view.blocks.iter().map(|b| b.index).collect()
}

#[test]
fn note_crossing_a_boundary_has_one_segment_per_block() {
    let mut n = plain_note(9_900_000, 0, 2);
    n.sustain = 300_000;
    let notes = vec![n];
    let key = NoteKey::new(&notes[0]);
    let first = desired_primitives(&notes, 0, 10_000_000, 0);
    assert_eq!(
        first,
        vec![
            Primitive::NoteMarker { key, left: 990_000, fret: 2 },
            Primitive::SustainSegment { key: SustainSegmentKey { note: key, block_index: 0 }, left: 990_000, width: 10_000 },
        ]
    );
    let second = desired_primitives(&notes, 1, 10_000_000, 0);
    assert_eq!(
        second,
        vec![Primitive::SustainSegment { key: SustainSegmentKey { note: key, block_index: 1 }, left: 0, width: 20_000 }]
    );
    assert!(desired_primitives(&notes, 1, 10_000_000, 1).is_empty());
}

#[test]
fn notes_without_a_fret_are_not_drawn() {
    let mut n = plain_note(1_000_000, 0, -1);
    n.sustain = 500_000;
    assert!(desired_primitives(&vec![n], 0, 10_000_000, 0).is_empty());
}

#[test]
fn slide_is_terminal_only_where_it_ends() {
    let mut n = plain_note(9_900_000, 0, 2);
    n.sustain = 300_000;
    n.techniques = vec![Techniques::Slide];
    n.slide_target = Some(5);
    let notes = vec![n];
    let key = NoteKey::new(&notes[0]);
    let first = desired_primitives(&notes, 0, 10_000_000, 0);
    assert_eq!(first.len(), 2);
    assert_eq!(
        first[1],
        Primitive::SlideSegment {
            key: SustainSegmentKey { note: key, block_index: 0 },
            left: 990_000,
            width: 10_000,
            terminal: false,
            end: 1_000_000,
            target_fret: 5,
        }
    );
    let second = desired_primitives(&notes, 1, 10_000_000, 0);
    assert_eq!(
        second,
        vec![Primitive::SlideSegment {
            key: SustainSegmentKey { note: key, block_index: 1 },
            left: 0,
            width: 20_000,
            terminal: true,
            end: 20_000,
            target_fret: 5,
        }]
    );
}

#[test]
fn first_frame_creates_the_window() {
    let mut view = TimelineView::new();
    let notes = vec![plain_note(1_000_000, 0, 3)];
    let frame = view.update(3, &notes, 0, 10_000_000, 16_000);
    assert_eq!(indices(&view), vec![0, 1, 2, 3]);
    assert_eq!(view.base_block_index, 0);
    let creates: Vec<&Instruction> = frame.instructions.iter().filter(|i| matches!(i, Instruction::CreateBlock { .. })).collect();
    assert_eq!(creates.len(), 4);
    assert!(frame.instructions.iter().any(|i| matches!(i, Instruction::Create { block: 0, string: 0, .. })));
    assert_eq!(frame.layouts.len(), 4);
    assert_eq!(frame.layouts[0].coverage, 0);
    assert_eq!(frame.layouts[1].coverage, 0);
    assert_eq!(frame.indicator, 0);
}

#[test]
fn second_identical_frame_emits_nothing() {
    let mut view = TimelineView::new();
    let mut n = plain_note(9_900_000, 1, 3);
    n.sustain = 300_000;
    let notes = vec![n, plain_note(21_000_000, 0, 5)];
    let first = view.update(2, &notes, 5_000_000, 10_000_000, 16_000);
    assert!(!first.instructions.is_empty());
    let second = view.update(2, &notes, 5_000_000, 10_000_000, 16_000);
    assert!(second.instructions.is_empty());
}

#[test]
fn zero_strings_destroy_every_block() {
    let mut view = TimelineView::new();
    let notes = vec![plain_note(1_000_000, 0, 3)];
    view.update(3, &notes, 0, 10_000_000, 16_000);
    let frame = view.update(0, &notes, 0, 10_000_000, 16_000);
    assert_eq!(
        frame.instructions,
        vec![
            Instruction::DestroyBlock { index: 0 },
            Instruction::DestroyBlock { index: 1 },
            Instruction::DestroyBlock { index: 2 },
            Instruction::DestroyBlock { index: 3 },
        ]
    );
    assert!(view.blocks.is_empty());
    assert_eq!(view.base_block_index, 0);
    assert!(view.shift_animation.is_none());
}

#[test]
fn seek_forward_jumps_the_window_without_animation() {
    let mut view = TimelineView::new();
    view.update(1, &Vec::new(), 0, 10_000_000, 16_000);
    let frame = view.update(1, &Vec::new(), 100_000_000, 10_000_000, 16_000);
    assert_eq!(view.base_block_index, 7);
    assert_eq!(indices(&view), vec![7, 8, 9, 10]);
    assert!(view.shift_animation.is_none());
    let destroyed = frame.instructions.iter().filter(|i| matches!(i, Instruction::DestroyBlock { .. })).count();
    let created = frame.instructions.iter().filter(|i| matches!(i, Instruction::CreateBlock { .. })).count();
    assert_eq!((destroyed, created), (4, 4));
}

#[test]
fn seek_backward_snaps_the_window() {
    let mut view = TimelineView::new();
    view.update(1, &Vec::new(), 100_000_000, 10_000_000, 16_000);
    assert_eq!(view.base_block_index, 10);
    view.update(1, &Vec::new(), 20_000_000, 10_000_000, 16_000);
    assert_eq!(view.base_block_index, 2);
    assert_eq!(indices(&view), vec![2, 3, 4, 5]);
}

#[test]
fn near_the_end_of_the_third_block_the_first_collapses() {
    let mut view = TimelineView::new();
    view.update(1, &Vec::new(), 0, 10_000_000, 16_000);
    view.update(1, &Vec::new(), 29_600_000, 10_000_000, 16_000);
    assert_eq!(view.base_block_index, 0);
    assert_eq!(indices(&view), vec![0, 1, 2, 3]);
    let anim = view.shift_animation.as_ref().unwrap();
    assert_eq!((anim.target_base_index, anim.removing_index, anim.elapsed), (1, 0, 0));
    assert!(view.blocks[0].is_removing);
    assert!(view.blocks.iter().all(|b| b.frozen));
    let mid = view.update(1, &Vec::new(), 29_700_000, 10_000_000, 90_000);
    assert_eq!(mid.layouts[0].collapse, Some(500_000));
    assert_eq!(mid.layouts[1].collapse, None);
    let frame = view.update(1, &Vec::new(), 29_800_000, 10_000_000, 90_000);
    assert_eq!(view.base_block_index, 1);
    assert_eq!(indices(&view), vec![1, 2, 3, 4]);
    assert!(view.shift_animation.is_none());
    assert!(view.blocks.iter().all(|b| !b.frozen && !b.is_removing));
    assert_eq!(frame.instructions[0], Instruction::DestroyBlock { index: 0 });
    assert!(frame.instructions.contains(&Instruction::CreateBlock { index: 4, rows: 1 }));
}

#[test]
fn collapse_target_extends_when_playback_runs_ahead() {
    let mut view = TimelineView::new();
    view.update(1, &Vec::new(), 0, 10_000_000, 16_000);
    view.update(1, &Vec::new(), 29_600_000, 10_000_000, 16_000);
    view.update(1, &Vec::new(), 60_000_000, 10_000_000, 16_000);
    assert_eq!(view.base_block_index, 0);
    assert_eq!(view.shift_animation.as_ref().unwrap().target_base_index, 3);
    view.update(1, &Vec::new(), 60_000_000, 10_000_000, 200_000);
    assert_eq!(view.base_block_index, 3);
    assert_eq!(indices(&view), vec![3, 4, 5, 6]);
}

#[test]
fn past_blocks_keep_their_primitives() {
    let mut view = TimelineView::new();
    let notes = vec![plain_note(12_000_000, 0, 3)];
    view.update(1, &notes, 15_000_000, 10_000_000, 16_000);
    assert_eq!(view.base_block_index, 1);
    assert_eq!(view.blocks[0].rows[0].len(), 1);
    let frame = view.update(1, &Vec::new(), 25_000_000, 10_000_000, 16_000);
    assert_eq!(view.base_block_index, 1);
    assert!(!frame.instructions.iter().any(|i| matches!(i, Instruction::Destroy { block: 1, .. })));
    assert_eq!(view.blocks[0].rows[0], vec![PrimitiveKey::Note(NoteKey::new(&notes[0]))]);
    assert_eq!(frame.layouts[0].coverage, 1_000_000);
    assert_eq!(frame.layouts[1].coverage, 500_000);
    assert_eq!(frame.layouts[2].coverage, 0);
}

#[test]
fn current_and_future_blocks_drop_vanished_notes() {
    let mut view = TimelineView::new();
    let notes = vec![plain_note(12_000_000, 0, 3)];
    view.update(1, &notes, 11_000_000, 10_000_000, 16_000);
    let frame = view.update(1, &Vec::new(), 11_000_000, 10_000_000, 16_000);
    assert_eq!(
        frame.instructions,
        vec![Instruction::Destroy { block: 1, string: 0, key: PrimitiveKey::Note(NoteKey::new(&notes[0])) }]
    );
}

#[test]
fn string_count_change_rebuilds_blocks() {
    let mut view = TimelineView::new();
    view.update(3, &Vec::new(), 0, 10_000_000, 16_000);
    let frame = view.update(4, &Vec::new(), 0, 10_000_000, 16_000);
    assert_eq!(frame.instructions.len(), 8);
    assert!(view.blocks.iter().all(|b| b.rows.len() == 4));
}

#[test]
fn short_durations_are_raised_to_the_minimum() {
    let mut view = TimelineView::new();
    view.update(1, &Vec::new(), 3_000_000, 0, 16_000);
    // blocks of 1.2 s: 3 s lies in block 2
    assert_eq!(view.base_block_index, 2);
}

#[test]
fn reconciling_rows_directly() {
    let notes = vec![plain_note(500_000, 0, 1)];
    let mut blocks = vec![BlockView { index: 0, rows: vec![Vec::new()], is_removing: false, frozen: false }];
    let first = reconcile_blocks(&mut blocks, &notes, 1_200_000, 0);
    assert_eq!(first.len(), 1);
    let second = reconcile_blocks(&mut blocks, &notes, 1_200_000, 0);
    assert!(second.is_empty());
}

#[test]
fn window_rule_and_shading() {
    assert_eq!(next_base(0, 5, 0), 2);
    assert_eq!(next_base(0, 2, 950_000), 1);
    assert_eq!(next_base(0, 2, 949_999), 0);
    assert_eq!(next_base(0, 1, 990_000), 0);
    assert_eq!(overlay_coverage(1, 2, 300), 1_000_000);
    assert_eq!(overlay_coverage(2, 2, 300), 300);
    assert_eq!(overlay_coverage(3, 2, 300), 0);
    assert_eq!(blend(0, 1_000_000), 300_000);
    assert_eq!(blend(1_000_000, 0), 700_000);
}

#[test]
fn indicator_blends_within_a_block_and_snaps_across() {
    let mut view = TimelineView::new();
    let a = view.update(1, &Vec::new(), 1_000_000, 10_000_000, 16_000);
    assert_eq!(a.indicator, 100_000);
    let b = view.update(1, &Vec::new(), 2_000_000, 10_000_000, 16_000);
    assert_eq!(b.indicator, 130_000);
    let c = view.update(1, &Vec::new(), 12_000_000, 10_000_000, 16_000);
    assert_eq!(c.indicator, 200_000);
}

#[test]
fn feed_defaults_and_window() {
    let mut feed = StringTimelineFeed::default();
    assert_eq!(feed.block_duration, 10_000_000);
    assert_eq!(feed.window_end, 40_000_000);
    assert_eq!(feed.window_length(), 40_000_000);
    assert_eq!(timeline_window_seconds(&feed), 40_000_000);
    assert_eq!(timeline_block_duration(&feed), 10_000_000);
    assert_eq!(visible_block_count(), 4);
    feed.update_timeline_window(25_000_000);
    assert_eq!((feed.window_start, feed.window_end), (10_000_000, 50_000_000));
    feed.block_duration = 0;
    feed.update_timeline_window(0);
    assert_eq!(feed.block_duration, 10_000_000);
    assert_eq!((feed.window_start, feed.window_end), (0, 40_000_000));
}

fn tab_note(time: u64, string: i32, fret: i32) -> TabNote {
    TabNote {
        time,
        techniques: Vec::new(),
        string,
        fret,
        anchor_fret: -1,
        sustain: 0,
        slide_to: -1,
        slide_unpitch_to: -1,
        max_bend: 0,
    }
}

#[test]
fn tracking_strings_locks_duration_and_merges() {
    let notes: Vec<TabNote> = (0..8).map(|i| tab_note(i * 500_000, (i % 3) as i32, 2)).collect();
    let charts = vec![TabNoteChart { difficulty: 0, notes }];
    let mut feed = StringTimelineFeed::default();
    feed.track_strings(&charts, 100, 5_000_000);
    assert_eq!(feed.block_duration, 2_000_000);
    assert!(feed.block_duration_locked);
    assert_eq!(feed.current_time, 5_000_000);
    assert_eq!((feed.window_start, feed.window_end), (2_000_000, 10_000_000));
    assert_eq!(feed.string_count, 3);
    let times: Vec<u64> = feed.notes.iter().map(|n| n.time).collect();
    assert_eq!(times, vec![2_000_000, 2_500_000, 3_000_000, 3_500_000]);
    feed.track_strings(&Vec::new(), 100, 3_000_000);
    assert_eq!(feed.block_duration, 10_000_000);
    assert!(!feed.block_duration_locked);
    assert_eq!(feed.string_count, 0);
    assert!(feed.notes.is_empty());
}

#[test]
fn vocals_clear_the_feed() {
    let mut feed = StringTimelineFeed::default();
    feed.block_duration = 2_000_000;
    feed.block_duration_locked = true;
    feed.string_count = 6;
    feed.clear_for_vocals(45_000_000);
    assert_eq!(feed.block_duration, 10_000_000);
    assert!(!feed.block_duration_locked);
    assert_eq!(feed.string_count, 0);
    assert_eq!((feed.window_start, feed.window_end), (30_000_000, 70_000_000));
}

#[test]
fn a_running_collapse_is_not_restarted() {
    let mut view = TimelineView::new();
    view.update(1, &Vec::new(), 0, 10_000_000, 16_000);
    view.update(1, &Vec::new(), 29_600_000, 10_000_000, 16_000);
    assert!(!view.start_shift_animation(2));
    let anim = view.shift_animation.as_ref().unwrap();
    assert_eq!(anim.target_base_index, 1);
}

#[test]
fn window_rebuild_keeps_staying_blocks_and_destroys_leaving_ones() {
    let mut view = TimelineView::new();
    let notes = vec![plain_note(32_000_000, 0, 3)];
    view.update(1, &notes, 20_000_000, 10_000_000, 16_000);
    assert_eq!(indices(&view), vec![2, 3, 4, 5]);
    view.base_block_index = 3;
    let mut instrs = Vec::new();
    view.ensure_blocks(1, &mut instrs);
    assert_eq!(instrs, vec![Instruction::CreateBlock { index: 6, rows: 1 }, Instruction::DestroyBlock { index: 2 }]);
    assert_eq!(indices(&view), vec![3, 4, 5, 6]);
    assert_eq!(view.blocks[0].rows[0].len(), 1);
    assert!(view.blocks[3].rows[0].is_empty());
}

#[test]
fn a_note_at_a_block_start_without_sustain_is_drawn() {
    let notes = vec![plain_note(0, 0, 3), plain_note(10_000_000, 0, 4)];
    let first = desired_primitives(&notes, 0, 10_000_000, 0);
    assert_eq!(first, vec![Primitive::NoteMarker { key: NoteKey::new(&notes[0]), left: 0, fret: 3 }]);
    let second = desired_primitives(&notes, 1, 10_000_000, 0);
    assert_eq!(second, vec![Primitive::NoteMarker { key: NoteKey::new(&notes[1]), left: 0, fret: 4 }]);
}
