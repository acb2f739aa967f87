use string_timeline::fret::{
    collect_active_notes, compute_fret_range, desired_fret_markers, ease_out_quad, fret_left_percent,
    progress_fret_zoom_animation, string_position_percent, FretRange, FretView, FretZoomAnimation,
};
use string_timeline::note::{FretMarkerKey, FretMarkerRole, NoteKey, TimelineNote};
use string_timeline::chart::Techniques;
use string_timeline::reconcile::{Primitive, PrimitiveKey};

fn plain_note(time: u64, string_index: usize, fret: i32) -> TimelineNote {
    TimelineNote {
        time,
        sustain: 0,
        string_index,
        fret,
        techniques: Vec::new(),
        additional_frets: Vec::new(),
        slide_target: None,
        slide_unpitched_target: None,
    }
}

#[test]
fn fret_range_widens_down_then_up() {
    assert_eq!(FretRange::new(5, 5), FretRange { start: 3, end: 7 });
    assert_eq!(FretRange::new(1, 1), FretRange { start: 0, end: 4 });
    assert_eq!(FretRange::new(0, 1), FretRange { start: 0, end: 4 });
    assert_eq!(FretRange::new(9, 2), FretRange { start: 2, end: 9 });
    assert_eq!(FretRange::new(5, 7), FretRange { start: 4, end: 8 });
    assert_eq!(FretRange::new(5, 7).span(), 5);
}

#[test]
fn positions_on_the_panel() {
    let range = FretRange { start: 4, end: 8 };
    assert_eq!(fret_left_percent(5, &range), 300_000);
    assert_eq!(fret_left_percent(4, &range), 100_000);
    assert_eq!(fret_left_percent(3, &range), -100_000);
    assert_eq!(string_position_percent(1, 3), 500_000);
    assert_eq!(string_position_percent(2, 3), 1_000_000);
    assert_eq!(string_position_percent(0, 1), 500_000);
}

#[test]
fn zoom_eases_out() {
    assert_eq!(ease_out_quad(0), 0);
    assert_eq!(ease_out_quad(500_000), 750_000);
    assert_eq!(ease_out_quad(1_000_000), 1_000_000);
    let mut zoom = Some(FretZoomAnimation::new());
    assert_eq!(progress_fret_zoom_animation(&mut zoom, 140_000), 850_000 + 150_000 * 750_000 / 1_000_000);
    assert_eq!(zoom, Some(FretZoomAnimation { elapsed: 140_000 }));
    assert_eq!(progress_fret_zoom_animation(&mut zoom, 200_000), 1_000_000);
    assert_eq!(zoom, None);
    assert_eq!(progress_fret_zoom_animation(&mut zoom, 10), 1_000_000);
}

#[test]
fn active_notes_are_the_sounding_group_or_the_next_one() {
    let mut first = plain_note(1_000_000, 0, 3);
    first.sustain = 1_000_000;
    let notes = vec![first, plain_note(1_050_000, 1, 4), plain_note(3_000_000, 0, 5)];
    assert_eq!(collect_active_notes(&notes, 1_500_000), vec![0]);
    assert_eq!(collect_active_notes(&notes, 1_060_000), vec![0, 1]);
    assert_eq!(collect_active_notes(&notes, 2_500_000), vec![2]);
    assert_eq!(collect_active_notes(&notes, 500_000), vec![0, 1]);
    assert_eq!(collect_active_notes(&notes, 9_000_000), Vec::<usize>::new());
    assert_eq!(collect_active_notes(&Vec::new(), 0), Vec::<usize>::new());
}

#[test]
fn fret_range_covers_primary_and_additional_frets() {
    let mut a = plain_note(0, 0, 5);
    a.additional_frets = vec![7, -1];
    let b = plain_note(0, 1, -1);
    let notes = vec![a, b];
    assert_eq!(compute_fret_range(&notes, &vec![0, 1]), Some(FretRange { start: 4, end: 8 }));
    assert_eq!(compute_fret_range(&notes, &vec![1]), None);
}

#[test]
fn one_marker_per_note_and_role() {
    let mut a = plain_note(0, 0, 5);
    a.additional_frets = vec![7];
    let mut b = plain_note(0, 1, 5);
    b.additional_frets = vec![7];
    let c = plain_note(0, 3, 6);
    let notes = vec![a, b, c];
    let range = FretRange { start: 4, end: 8 };
    let markers = desired_fret_markers(&notes, &vec![0, 1, 2], 0, &range, 2);
    let ka = NoteKey::new(&notes[0]);
    let kb = NoteKey::new(&notes[1]);
    assert_eq!(
        markers,
        vec![
            Primitive::FretMarker { key: FretMarkerKey { note: ka, role: FretMarkerRole::Primary }, left: 300_000, top: 0, primary: true },
            Primitive::FretMarker { key: FretMarkerKey { note: ka, role: FretMarkerRole::Additional(7) }, left: 700_000, top: 0, primary: false },
            Primitive::FretMarker { key: FretMarkerKey { note: kb, role: FretMarkerRole::Primary }, left: 300_000, top: 1_000_000, primary: true },
            Primitive::FretMarker { key: FretMarkerKey { note: kb, role: FretMarkerRole::Additional(7) }, left: 700_000, top: 1_000_000, primary: false },
        ]
    );
}

#[test]
fn no_strings_show_no_fret_panel() {
    let notes = vec![plain_note(0, 0, 5)];
    let mut view = FretView::new();
    let frame = view.update(&notes, 0, 0, 16_000);
    assert_eq!(frame.range, None);
    assert!(frame.markers.is_empty());
    assert_eq!(view.grid_lines, 0);
    assert_eq!(frame.scale, 1_000_000);
}

#[test]
fn slide_bar_grows_toward_the_target() {
    let mut n = plain_note(1_000_000, 0, 5);
    n.sustain = 1_000_000;
    n.techniques = vec![Techniques::Slide];
    n.slide_target = Some(7);
    n.additional_frets = vec![7];
    let notes = vec![n];
    let range = FretRange { start: 4, end: 8 };
    let markers = desired_fret_markers(&notes, &vec![0], 1_500_000, &range, 1);
    assert_eq!(markers.len(), 3);
    assert_eq!(
        markers[2],
        Primitive::FretSlideBar {
            key: FretMarkerKey::slide_bar(&notes[0]),
            left: 300_000,
            width: 200_000,
            top: 500_000,
        }
    );
    let before = desired_fret_markers(&notes, &vec![0], 1_000_000, &range, 1);
    assert_eq!(before.len(), 2);
}

#[test]
fn fret_view_reconciles_and_zooms_on_change() {
    let mut a = plain_note(1_000_000, 0, 5);
    a.additional_frets = vec![7];
    let notes = vec![a, plain_note(4_000_000, 0, 2)];
    let mut view = FretView::new();
    let first = view.update(&notes, 1, 1_000_000, 0);
    assert_eq!(first.range, Some(FretRange { start: 4, end: 8 }));
    assert_eq!(first.created.len(), 2);
    assert!(first.destroyed.is_empty());
    assert!(first.grid_rebuilt);
    assert_eq!(first.scale, 850_000);
    let second = view.update(&notes, 1, 1_000_000, 280_000);
    assert!(second.created.is_empty());
    assert!(second.destroyed.is_empty());
    assert!(!second.grid_rebuilt);
    assert_eq!(second.scale, 1_000_000);
    let third = view.update(&notes, 1, 4_000_000, 16_000);
    assert_eq!(third.range, Some(FretRange { start: 0, end: 4 }));
    assert_eq!(third.created.len(), 1);
    assert_eq!(third.destroyed.len(), 2);
    assert_eq!(third.scale, 850_000 + 150_000 * (1_000_000 - (1_000_000 - 16_000 * 1_000_000 / 280_000) * (1_000_000 - 16_000 * 1_000_000 / 280_000) / 1_000_000) / 1_000_000);
    let fourth = view.update(&Vec::new(), 1, 9_000_000, 16_000);
    assert_eq!(fourth.range, None);
    assert!(fourth.markers.is_empty());
    assert_eq!(fourth.destroyed, vec![PrimitiveKey::Fret(FretMarkerKey::primary(&notes[1]))]);
}
