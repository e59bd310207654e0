use quaver_rs::game_mode::GameMode;
use quaver_rs::hand::{FingerAction, Hand, LnLayerType, FINGER_INDEX, FINGER_MIDDLE};
use quaver_rs::map::{HitObjectInfo, QuaverMap};
use quaver_rs::strain::{
    compute_base_strain_states, compute_bins, compute_for_chords, compute_for_finger_actions,
    compute_for_pattern_flags, compute_note_density_data, solve_strains, StrainConstants,
    StrainSolverData, PATTERN_ROLLS, PATTERN_SIMPLE_VIBRO,
};

fn note(start_time: i32, lane: i32, end_time: i32) -> HitObjectInfo {
    HitObjectInfo { start_time, lane, end_time }
}

fn four_key_map(notes: Vec<HitObjectInfo>) -> QuaverMap {
    QuaverMap { mode: GameMode::Keys4, has_scratch_key: false, hit_objects: notes }
}

fn base(notes: Vec<HitObjectInfo>) -> Vec<StrainSolverData> {
    compute_base_strain_states(&notes, GameMode::Keys4, false, Hand::Left)
}

#[test]
fn fewer_than_two_notes_give_no_events() {
    let c = StrainConstants::new();
    assert!(solve_strains(&four_key_map(vec![]), 100, c, Hand::Left).is_empty());
    assert!(solve_strains(&four_key_map(vec![note(0, 1, 0)]), 100, c, Hand::Left).is_empty());
}

#[test]
fn different_hands_do_not_merge() {
    let events = base(vec![note(0, 1, 0), note(8, 3, 0)]);
    let merged = compute_for_chords(&events, StrainConstants::new(), 100);
    assert_eq!(merged.len(), 2);
    assert_eq!(merged[0].hand, Hand::Left);
    assert_eq!(merged[1].hand, Hand::Right);
}

#[test]
fn same_hand_within_tolerance_merges_into_chord() {
    let events = base(vec![note(0, 1, 0), note(5, 2, 0)]);
    let merged = compute_for_chords(&events, StrainConstants::new(), 100);
    assert_eq!(merged.len(), 1);
    assert_eq!(merged[0].hit_objects.len(), 2);
    assert_eq!(merged[0].finger_state, FINGER_MIDDLE | FINGER_INDEX);
    assert_eq!(merged[0].start_time, 0);
}

#[test]
fn chord_tolerance_scales_with_rate() {
    // 10 ms of map time last 5 ms at double speed, inside the 8 ms tolerance.
    let events = base(vec![note(0, 1, 0), note(10, 2, 0)]);
    assert_eq!(compute_for_chords(&events, StrainConstants::new(), 100).len(), 2);
    assert_eq!(compute_for_chords(&events, StrainConstants::new(), 200).len(), 1);
}

#[test]
fn chord_merge_is_idempotent() {
    let events = base(vec![note(0, 1, 0), note(3, 2, 0), note(4, 3, 0), note(100, 1, 0), note(104, 2, 0)]);
    let c = StrainConstants::new();
    let once = compute_for_chords(&events, c, 100);
    let twice = compute_for_chords(&once, c, 100);
    assert_eq!(once.len(), 3);
    assert_eq!(twice.len(), once.len());
    for (a, b) in once.iter().zip(twice.iter()) {
        assert_eq!(a.start_time, b.start_time);
        assert_eq!(a.hit_objects, b.hit_objects);
        assert_eq!(a.finger_state, b.finger_state);
    }
}

#[test]
fn many_simultaneous_notes_merge_per_hand() {
    let mut notes = Vec::new();
    for _ in 0..200 {
        notes.push(note(0, 1, 0));
        notes.push(note(0, 4, 0));
    }
    let merged = compute_for_chords(&base(notes), StrainConstants::new(), 100);
    assert_eq!(merged.len(), 2);
    assert_eq!(merged[0].hit_objects.len(), 1);
}

#[test]
fn transitions_are_classified() {
    // lane 1 then lane 2: a roll; lane 2 then lane 2: a jack.
    let mut events = base(vec![note(0, 1, 0), note(100, 2, 0), note(200, 2, 0)]);
    compute_for_finger_actions(&mut events);
    assert_eq!(events[0].finger_action, FingerAction::Roll);
    assert_eq!(events[0].next_on_hand, Some(1));
    assert_eq!(events[0].finger_action_duration_ms, 100);
    assert_eq!(events[1].finger_action, FingerAction::SimpleJack);
    assert_eq!(events[2].finger_action, FingerAction::NoAction);
    assert_eq!(events[2].next_on_hand, None);
}

#[test]
fn chord_transitions_are_brackets_or_technical_jacks() {
    let c = StrainConstants::new();
    let mut events = compute_for_chords(
        &base(vec![note(0, 1, 0), note(0, 2, 0), note(100, 2, 0), note(200, 1, 0)]),
        c,
        100,
    );
    compute_for_finger_actions(&mut events);
    assert_eq!(events[0].finger_action, FingerAction::TechnicalJack);
    assert_eq!(events[1].finger_action, FingerAction::Roll);
    let mut events = compute_for_chords(&base(vec![note(0, 1, 0), note(0, 2, 0), note(100, 1, 0)]), c, 100);
    compute_for_finger_actions(&mut events);
    assert_eq!(events[0].finger_action, FingerAction::TechnicalJack);
}

#[test]
fn solving_ignores_input_order() {
    let notes = vec![note(0, 1, 0), note(120, 2, 0), note(240, 1, 0), note(360, 2, 0), note(480, 3, 600), note(500, 4, 0)];
    let mut shuffled = notes.clone();
    shuffled.reverse();
    shuffled.swap(0, 3);
    let c = StrainConstants::new();
    let a = solve_strains(&four_key_map(notes), 100, c, Hand::Left);
    let b = solve_strains(&four_key_map(shuffled), 100, c, Hand::Left);
    assert_eq!(a.len(), b.len());
    for (x, y) in a.iter().zip(b.iter()) {
        assert_eq!(x.hit_objects, y.hit_objects);
        assert_eq!(x.finger_action, y.finger_action);
        assert_eq!(x.next_on_hand, y.next_on_hand);
        assert_eq!(x.roll_manipulation_index, y.roll_manipulation_index);
        assert_eq!(x.jack_manipulation_index, y.jack_manipulation_index);
        assert_eq!(x.ln_layer_type, y.ln_layer_type);
    }
}

#[test]
fn trills_are_marked_as_roll_manipulation() {
    // lanes 1 and 2 alternating with uneven timing: 50 ms then 150 ms.
    let mut notes = Vec::new();
    let mut t = 0;
    for k in 0..8 {
        notes.push(note(t, 1 + (k % 2), 0));
        t += if k % 2 == 0 { 50 } else { 150 };
    }
    let events = solve_strains(&four_key_map(notes), 100, StrainConstants::new(), Hand::Left);
    assert_eq!(events[0].roll_manipulation_index, Some(0));
    assert_eq!(events[1].roll_manipulation_index, Some(1));
    assert_eq!(events[2].roll_manipulation_index, Some(2));
    assert_eq!(events[7].roll_manipulation_index, None);
    assert_eq!(compute_for_pattern_flags(&events).bits, PATTERN_ROLLS);
}

#[test]
fn fast_jacks_are_marked_as_vibro() {
    let notes: Vec<HitObjectInfo> = (0..5).map(|k| note(k * 60, 1, 0)).collect();
    let events = solve_strains(&four_key_map(notes.clone()), 100, StrainConstants::new(), Hand::Left);
    assert_eq!(events[0].jack_manipulation_index, Some(0));
    assert_eq!(events[1].jack_manipulation_index, Some(1));
    assert_eq!(events[2].jack_manipulation_index, Some(2));
    assert_eq!(events[3].jack_manipulation_index, None);
    assert_eq!(compute_for_pattern_flags(&events).bits, PATTERN_SIMPLE_VIBRO);
    // slow jacks are no vibro
    let slow: Vec<HitObjectInfo> = (0..5).map(|k| note(k * 400, 1, 0)).collect();
    let events = solve_strains(&four_key_map(slow), 100, StrainConstants::new(), Hand::Left);
    assert!(events.iter().all(|e| e.jack_manipulation_index.is_none()));
}

#[test]
fn long_note_layers() {
    let c = StrainConstants::new();
    // a hold on lane 1 from 0 to 1000, a tap on lane 2 at 500: inside tap
    let events = solve_strains(&four_key_map(vec![note(0, 1, 1000), note(500, 2, 0)]), 100, c, Hand::Left);
    assert_eq!(events[0].ln_layer_type, LnLayerType::InsideTap);
    // the second note released after the first: outside release
    let events = solve_strains(&four_key_map(vec![note(0, 1, 1000), note(500, 2, 1500)]), 100, c, Hand::Left);
    assert_eq!(events[0].ln_layer_type, LnLayerType::OutsideRelease);
    let events = solve_strains(&four_key_map(vec![note(0, 1, 1000), note(500, 2, 800)]), 100, c, Hand::Left);
    assert_eq!(events[0].ln_layer_type, LnLayerType::InsideRelease);
    // a next note too close to the end is no layer
    let events = solve_strains(&four_key_map(vec![note(0, 1, 1000), note(990, 2, 0)]), 100, c, Hand::Left);
    assert_eq!(events[0].ln_layer_type, LnLayerType::NoLayer);
}

#[test]
fn seven_key_middle_lane_goes_to_the_assumed_hand() {
    let m = QuaverMap { mode: GameMode::Keys7, has_scratch_key: false, hit_objects: vec![note(0, 4, 0), note(100, 1, 0)] };
    let c = StrainConstants::new();
    let left = solve_strains(&m, 100, c, Hand::Left);
    let right = solve_strains(&m, 100, c, Hand::Right);
    assert_eq!(left[0].hand, Hand::Left);
    assert_eq!(right[0].hand, Hand::Right);
}

#[test]
fn scratch_lane_is_left_out() {
    let notes = vec![note(0, 5, 0), note(100, 1, 0), note(200, 5, 0)];
    let events = compute_base_strain_states(&notes, GameMode::Keys4, true, Hand::Left);
    assert_eq!(events.len(), 1);
    assert_eq!(events[0].start_time, 100);
}

#[test]
fn bins_span_a_second_of_played_time() {
    let events = base(vec![note(0, 1, 0), note(999, 1, 0), note(1000, 2, 0), note(3000, 3, 0)]);
    let bins = compute_bins(&events, 100);
    assert_eq!(bins.count, 3);
    assert_eq!(bins.bin_of_event, vec![Some(0), Some(0), Some(1), None]);
    let fast = compute_bins(&events, 200);
    assert_eq!(fast.count, 2);
    assert_eq!(fast.bin_of_event, vec![Some(0), Some(0), Some(0), Some(1)]);
}

#[test]
fn density_rises_with_rate() {
    let (n1, d1) = compute_note_density_data(10, 10_000, 100);
    assert_eq!((n1, d1), (2_000_000, 2_000_000));
    let (n2, d2) = compute_note_density_data(10, 10_000, 150);
    assert!((n1 as u128) * (d2 as u128) < (n2 as u128) * (d1 as u128));
}

#[test]
fn solved_events_hold_the_map_notes_but_not_the_scratch_lane() {
    let m = QuaverMap {
        mode: GameMode::Keys4,
        has_scratch_key: true,
        hit_objects: vec![note(0, 1, 0), note(5, 2, 0), note(3, 5, 0), note(200, 5, 0), note(300, 4, 0)],
    };
    let events = solve_strains(&m, 100, StrainConstants::new(), Hand::Left);
    assert_eq!(events.len(), 2);
    assert_eq!(events[0].hit_objects.len(), 2);
    assert_eq!(events[0].finger_state, FINGER_MIDDLE | FINGER_INDEX);
    assert!(events.iter().all(|e| e.hit_objects.iter().all(|h| h.hit_object.lane != 5)));
}
