use quaver_rs::binary_helper::{BinaryHelper, UnexpectedEof};
use quaver_rs::frames::{
    parse_decimal, parse_osu_replay_events, parse_replay_frames, read_osu_replay, read_quaver_replay,
    split_bytes, ReplayError,
};
use quaver_rs::game_mode::{GameMode, TimeSignature};
use quaver_rs::hand::{lane_to_finger, lane_to_hand, Hand, FINGER_MIDDLE, FINGER_RING, FINGER_THUMB};
use quaver_rs::map::{HitObjectInfo, QuaverMap, TimingGap};
use quaver_rs::mods::{ModIdentifier, MIRROR, NO_LONG_NOTES, NO_MISS, SPEED_05X, SPEED_15X, SPEED_195X};
use quaver_rs::osu::osu_key_lane;
use quaver_rs::replay::{
    generate_perfect_replay_keys, key_lane_to_press_state, legacy_mods, read_compressed_block,
    read_compressed_frames, version_at_least, ReplayFrame, ReplayKeyPressState,
};
use quaver_rs::scoring::{
    calculate_summed_score, initialise_health_weighting, HitStat, HitStatType, Judgement, JudgementWindows, KeyPressType,
    ScoreProcessor,
};

fn note(start_time: i32, lane: i32, end_time: i32) -> HitObjectInfo {
    HitObjectInfo { start_time, lane, end_time }
}

fn four_key_map(notes: Vec<HitObjectInfo>) -> QuaverMap {
    QuaverMap { mode: GameMode::Keys4, has_scratch_key: false, hit_objects: notes }
}

#[test]
fn rate_from_mods() {
    assert_eq!(ModIdentifier::get_rate_from_mods(ModIdentifier::empty()), 100);
    assert_eq!(ModIdentifier::get_rate_from_mods(ModIdentifier::from_bits(SPEED_05X)), 50);
    assert_eq!(ModIdentifier::get_rate_from_mods(ModIdentifier::from_bits(SPEED_15X | MIRROR)), 150);
    assert_eq!(ModIdentifier::get_rate_from_mods(ModIdentifier::from_bits(SPEED_195X)), 195);
    assert_eq!(ModIdentifier::get_rate_from_mods(ModIdentifier::from_bits(MIRROR)), 100);
}

#[test]
fn key_counts_and_lane_tables() {
    assert_eq!(GameMode::Keys4.key_count(), 4);
    assert_eq!(GameMode::Keys7.key_count(), 7);
    let m = QuaverMap { mode: GameMode::Keys7, has_scratch_key: true, hit_objects: vec![] };
    assert_eq!(m.get_key_count(None), 8);
    assert_eq!(m.get_key_count(Some(false)), 7);
    assert_eq!(lane_to_hand(GameMode::Keys4, 2), Hand::Left);
    assert_eq!(lane_to_hand(GameMode::Keys4, 3), Hand::Right);
    assert_eq!(lane_to_hand(GameMode::Keys7, 4), Hand::Ambiguous);
    assert_eq!(lane_to_finger(GameMode::Keys4, 4), FINGER_MIDDLE);
    assert_eq!(lane_to_finger(GameMode::Keys7, 7), FINGER_RING);
    assert_eq!(lane_to_finger(GameMode::Keys7, 4), FINGER_THUMB);
    assert_eq!(TimeSignature::from_beats(3), Some(TimeSignature::Triple));
    assert_eq!(TimeSignature::from_beats(5), None);
    assert_eq!(TimeSignature::default().beats(), 4);
}

#[test]
fn mirror_twice_restores_lanes() {
    let notes = vec![note(0, 1, 0), note(10, 2, 50), note(20, 4, 0)];
    let mut m = four_key_map(notes.clone());
    m.mirror_hit_objects();
    assert_eq!(m.hit_objects.iter().map(|h| h.lane).collect::<Vec<_>>(), vec![4, 3, 1]);
    m.mirror_hit_objects();
    assert_eq!(m.hit_objects, notes);
}

#[test]
fn length_sort_and_judgement_count() {
    let mut m = four_key_map(vec![note(500, 2, 0), note(0, 1, 900), note(500, 1, 0)]);
    assert_eq!(m.length(), 900);
    assert_eq!(m.get_total_judgement_count(), 4);
    m.sort();
    assert_eq!(m.hit_objects, vec![note(0, 1, 900), note(500, 1, 0), note(500, 2, 0)]);
    assert_eq!(four_key_map(vec![]).length(), 0);
    m.replace_long_notes_with_regular_notes();
    assert_eq!(m.get_total_judgement_count(), 3);
}

fn one_section() -> Vec<TimingGap> {
    // 120 bpm: a sixteenth lasts 125 ms
    vec![TimingGap { start_time: 0, sixteenth_ms: 125 }]
}

#[test]
fn inverse_turns_taps_into_holds_before_the_next_note() {
    let mut m = four_key_map(vec![note(0, 1, 0), note(1000, 1, 0), note(2000, 1, 0)]);
    m.apply_inverse(&one_section());
    assert_eq!(m.hit_objects, vec![note(0, 1, 875), note(1000, 1, 2000)]);
}

#[test]
fn inverse_drops_holds_that_would_be_too_short() {
    let mut m = four_key_map(vec![note(0, 1, 0), note(100, 1, 0), note(200, 1, 0)]);
    m.apply_inverse(&one_section());
    // 100 - 125 leaves no hold; the second note runs to the third.
    assert_eq!(m.hit_objects, vec![note(100, 1, 200)]);
}

#[test]
fn inverse_keeps_a_note_alone_in_its_lane() {
    let mut m = four_key_map(vec![note(0, 1, 0), note(50, 2, 0), note(1000, 2, 0), note(2000, 2, 0)]);
    m.apply_inverse(&one_section());
    assert_eq!(m.hit_objects, vec![note(0, 1, 0), note(50, 2, 875), note(1000, 2, 2000)]);
}

#[test]
fn apply_mods_mirror_and_no_long_notes() {
    let mut m = four_key_map(vec![note(0, 1, 500), note(10, 3, 0)]);
    m.apply_mods(ModIdentifier::from_bits(MIRROR | NO_LONG_NOTES), &one_section());
    assert_eq!(m.hit_objects, vec![note(0, 4, 0), note(10, 2, 0)]);
}

#[test]
fn judgement_windows_and_release() {
    let m = four_key_map(vec![note(0, 1, 0), note(100, 2, 0)]);
    let mut p = ScoreProcessor::from_map(&m, ModIdentifier::empty(), None);
    assert_eq!(p.calculate_score_from_hit_difference(10, KeyPressType::PRESS, Some(false)), Judgement::Marv);
    assert_eq!(p.calculate_score_from_hit_difference(-43, KeyPressType::PRESS, Some(false)), Judgement::Perf);
    assert_eq!(p.calculate_score_from_hit_difference(150, KeyPressType::PRESS, Some(false)), Judgement::Miss);
    assert_eq!(p.calculate_score_from_hit_difference(200, KeyPressType::PRESS, Some(false)), Judgement::GhostTap);
    // releases get windows half as wide again, and Okay becomes Good
    assert_eq!(p.calculate_score_from_hit_difference(27, KeyPressType::RELEASE, Some(false)), Judgement::Marv);
    assert_eq!(p.calculate_score_from_hit_difference(180, KeyPressType::RELEASE, Some(false)), Judgement::Good);
    assert_eq!(p.calculate_score_from_hit_difference(200, KeyPressType::RELEASE, Some(false)), Judgement::GhostTap);
    assert_eq!(p.calculate_score_from_hit_difference(i32::MIN, KeyPressType::PRESS, None), Judgement::Miss);
    assert_eq!(p.total_judgement_count(), 0);
    let w = JudgementWindows::default();
    assert_eq!(w.get_value_from_judgement(Judgement::Great), Some(7600));
    assert_eq!(w.get_value_from_judgement(Judgement::GhostTap), None);
}

#[test]
fn score_accuracy_health_and_combo() {
    let m = four_key_map(vec![note(0, 1, 0), note(100, 2, 0), note(200, 3, 0), note(300, 4, 0)]);
    let mut p = ScoreProcessor::from_map(&m, ModIdentifier::empty(), None);
    assert_eq!(p.total_judgements, 4);
    assert_eq!(p.summed_score, 400);
    p.calculate_score_from_judgement(Judgement::Marv, None);
    assert_eq!(p.accuracy, 10000);
    assert_eq!(p.combo, 1);
    assert_eq!(p.score, 250_000);
    assert_eq!(p.health, 10000);
    p.calculate_score_from_judgement(Judgement::Miss, None);
    assert_eq!(p.combo, 0);
    assert_eq!(p.max_combo, 1);
    assert_eq!(p.accuracy, 2500);
    assert_eq!(p.health, 9400);
    p.calculate_score_from_judgement(Judgement::Okay, None);
    p.calculate_score_from_judgement(Judgement::Okay, None);
    assert_eq!(p.accuracy, 0);
    assert!(p.health >= 0 && p.health <= 10000);
    assert!(!p.failed());
}

#[test]
fn no_miss_fails_on_a_miss() {
    let m = four_key_map(vec![note(0, 1, 0), note(100, 2, 0)]);
    let mut p = ScoreProcessor::from_map(&m, ModIdentifier::from_bits(NO_MISS), None);
    p.calculate_score_from_judgement(Judgement::Great, None);
    assert!(!p.failed());
    p.calculate_score_from_judgement(Judgement::Miss, None);
    assert_eq!(p.health, 0);
    assert!(p.force_fail());
    assert!(p.failed());
}

#[test]
fn summed_score_reaches_the_multiplier_cap() {
    assert_eq!(calculate_summed_score(0), 0);
    assert_eq!(calculate_summed_score(1), 100);
    assert_eq!(calculate_summed_score(10), 1010);
    // past 150 judgements each perfect one is worth 100 + 150
    assert_eq!(calculate_summed_score(151) - calculate_summed_score(150), 250);
}

#[test]
fn health_weights_follow_density() {
    let base = initialise_health_weighting(ModIdentifier::empty(), 0, 0);
    assert_eq!(base, vec![50, 40, 20, -300, -450, -600]);
    // 3 actions per second: marv weight 0.5 * (-0.14 * 3 + 2.68) = 1.13
    let w = initialise_health_weighting(ModIdentifier::empty(), 3, 1000);
    assert_eq!(w[0], 113);
    assert_eq!(w[5], -600);
    // below 2 per second the weights stay
    let low = initialise_health_weighting(ModIdentifier::empty(), 1, 1000);
    assert_eq!(low, base);
    // exactly 2 per second: 0.5 * (-0.28 + 2.68) = 1.2
    let two = initialise_health_weighting(ModIdentifier::empty(), 2, 1000);
    assert_eq!(two[0], 120);
    // at 12 per second and above the weights stay
    let high = initialise_health_weighting(ModIdentifier::empty(), 12, 1000);
    assert_eq!(high, base);
}

#[test]
fn binary_reads() {
    let data = [1u8, 2, 3, 4, 5, 6, 7, 8, 3, b'a', b'b', b'c', 9];
    let mut br = BinaryHelper::from_u8(&data);
    assert_eq!(br.remaining_length(), 13);
    assert_eq!(br.read_u32(), Ok(0x0403_0201));
    assert_eq!(br.read_u16(), Ok(0x0605));
    assert_eq!(br.read_u8(), Ok(7));
    br.adv(1);
    assert_eq!(br.read_string(), Some("abc".to_string()));
    assert_eq!(br.read_u64(), Err(UnexpectedEof { bytes: 8, pos: 12 }));
    assert_eq!(br.read(1), Some(vec![9]));
    assert_eq!(br.read(1), None);
    let mut whole = BinaryHelper::from_u8(&[1, 0, 0, 0, 0, 0, 0, 1]);
    assert_eq!(whole.read_u64(), Ok(0x0100_0000_0000_0001));
    let mut bytes = BinaryHelper::from_u8(&[0x85, 1]);
    assert_eq!(bytes.read_7bit_encoded_int(), None);
    assert_eq!(bytes.read_bytes(1), Ok(vec![1]));
}

#[test]
fn key_press_state_lanes() {
    assert_eq!(ReplayKeyPressState { bits: 0b1_0000_0101 }.to_lanes(), vec![0, 2, 8]);
    assert_eq!(ReplayKeyPressState { bits: 0 }.to_lanes(), Vec::<i32>::new());
}

#[test]
fn osu_columns_to_lanes() {
    assert_eq!(osu_key_lane(64, 4, false), 1);
    assert_eq!(osu_key_lane(192, 4, false), 2);
    assert_eq!(osu_key_lane(448, 4, false), 4);
    assert_eq!(osu_key_lane(600, 4, false), 4);
    assert_eq!(osu_key_lane(36, 8, true), 8);
    assert_eq!(osu_key_lane(100, 8, true), 1);
}

#[test]
fn actions_per_second_leave_out_breaks() {
    let m = four_key_map(vec![note(0, 1, 0), note(500, 2, 1500), note(5000, 1, 0)]);
    assert_eq!(m.get_actions_per_second(), (4, 500));
    assert_eq!(four_key_map(vec![]).get_actions_per_second(), (0, 0));
}

#[test]
fn dense_enough_maps_adjust_health() {
    // 6 actions over 1500 ms of play: 4 per second
    let m = four_key_map(vec![note(0, 1, 0), note(300, 2, 0), note(600, 3, 0), note(900, 4, 0), note(1200, 1, 0), note(1500, 2, 0)]);
    let p = ScoreProcessor::from_map(&m, ModIdentifier::empty(), None);
    // 0.5 * (-0.14 * 4 + 2.68) = 1.06
    assert_eq!(p.health_weights[0], 106);
    let auto = ScoreProcessor::from_map(&m, ModIdentifier::from_bits(quaver_rs::mods::AUTOPLAY), None);
    assert_eq!(auto.health_weights[0], 50);
}

#[test]
fn perfect_replay_frames() {
    let frames = generate_perfect_replay_keys(&vec![note(0, 1, 0), note(0, 2, 100)]);
    let keys = |bits: i16| ReplayKeyPressState { bits };
    assert_eq!(
        frames,
        vec![
            ReplayFrame { time: -10000, keys: keys(0) },
            ReplayFrame { time: 0, keys: keys(3) },
            ReplayFrame { time: 30, keys: keys(2) },
            ReplayFrame { time: 99, keys: keys(0) },
        ]
    );
    assert_eq!(key_lane_to_press_state(3), Some(keys(4)));
    assert_eq!(key_lane_to_press_state(10), None);
}

#[test]
fn hit_stat_defaults() {
    let stat = HitStat::new(HitStatType::HIT, KeyPressType::PRESS, None, None, None, 12, None, Some(9950));
    assert_eq!(stat.song_position, 0);
    assert_eq!(stat.judgement, Judgement::GhostTap);
    assert_eq!(stat.accuracy, 0);
    assert_eq!(stat.health, 9950);
    assert_eq!(stat.hit_difference, 12);
}

#[test]
fn legacy_replay_mods() {
    assert_eq!(legacy_mods(-1), 0);
    assert_eq!(legacy_mods(5), 5);
    assert_eq!(legacy_mods(i32::MIN | 2), MIRROR | 2);
}

#[test]
fn replay_versions() {
    assert_eq!(version_at_least(&"0.0.1".to_string(), 0, 0, 1), Some(true));
    assert_eq!(version_at_least(&"0.1.0".to_string(), 0, 0, 1), Some(true));
    assert_eq!(version_at_least(&"0.0.1-beta".to_string(), 0, 0, 1), Some(false));
    assert_eq!(version_at_least(&"0.0.0".to_string(), 0, 0, 1), Some(false));
    assert_eq!(version_at_least(&"None".to_string(), 0, 0, 1), None);
}

#[test]
fn compressed_frames() {
    // an LZMA stream of nothing: properties, dictionary size, unpacked size 0, coder start
    let empty = [0x5d, 0, 0, 0x80, 0, 0, 0, 0, 0, 0, 0, 0, 0, 0, 0, 0, 0, 0];
    let mut br = BinaryHelper::from_u8(&empty);
    assert_eq!(read_compressed_frames(&mut br), Some(vec![]));
    let mut bad = BinaryHelper::from_u8(&[1, 2, 3]);
    assert_eq!(read_compressed_frames(&mut bad), None);
    let mut block = BinaryHelper::from_u8(&empty);
    assert_eq!(read_compressed_block(&mut block, 18), Some(vec![]));
    let mut short = BinaryHelper::from_u8(&empty);
    assert_eq!(read_compressed_block(&mut short, 40), None);
}

#[test]
fn replay_frame_text() {
    let frames = parse_replay_frames(&b"0|1,10|3,bad,-5|0,+7|511".to_vec()).unwrap();
    let keys = |bits: i16| ReplayKeyPressState { bits };
    assert_eq!(
        frames,
        vec![
            ReplayFrame { time: 0, keys: keys(1) },
            ReplayFrame { time: 10, keys: keys(3) },
            ReplayFrame { time: -5, keys: keys(0) },
            ReplayFrame { time: 7, keys: keys(511) },
        ]
    );
    assert_eq!(parse_replay_frames(&b"1|999".to_vec()), None);
    assert_eq!(parse_replay_frames(&b"1|x".to_vec()), None);
    assert_eq!(parse_replay_frames(&b"".to_vec()), Some(vec![]));
    assert_eq!(parse_decimal(&b"-2147483648".to_vec(), i32::MIN as i64, i32::MAX as i64), Some(i32::MIN as i64));
    assert_eq!(parse_decimal(&b"99999999999999999999".to_vec(), 0, 10), None);
    assert_eq!(split_bytes(&b"a,,b".to_vec(), b','), vec![b"a".to_vec(), vec![], b"b".to_vec()]);
}

#[test]
fn osu_replay_event_text() {
    let (events, seed) = parse_osu_replay_events(&b"0|5|0|0,,16|262145|0|0,-12345|0|0|777".to_vec()).unwrap();
    assert_eq!(events.len(), 2);
    assert_eq!(events[0].time_delta, 0);
    assert_eq!(events[0].keys.bits, 5);
    // keys beyond the 18 lanes are dropped
    assert_eq!(events[1].keys.bits, 1);
    assert_eq!(seed, 777);
    assert_eq!(parse_osu_replay_events(&b"1".to_vec()), None);
}

#[test]
fn osu_replay_of_another_mode_is_refused() {
    assert_eq!(read_osu_replay(&vec![0u8, 1, 2]).err(), Some(ReplayError::NotMania));
    assert!(read_osu_replay(&vec![]).is_err());
    assert!(matches!(read_osu_replay(&vec![3u8, 1]), Err(ReplayError::UnexpectedEof(_))));
}

#[test]
fn quaver_replay_bytes() {
    let mut data: Vec<u8> = Vec::new();
    for text in ["None", "m", "h", "player", "date"] {
        data.push(text.len() as u8);
        data.extend_from_slice(text.as_bytes());
    }
    data.extend_from_slice(&7i64.to_le_bytes());
    data.extend_from_slice(&1i32.to_le_bytes());
    data.extend_from_slice(&(i32::MIN | 4).to_le_bytes());
    data.extend_from_slice(&900_000i32.to_le_bytes());
    data.extend_from_slice(&98.5f32.to_bits().to_le_bytes());
    for v in [12i32, 10, 1, 1, 0, 0, 0, 0] {
        data.extend_from_slice(&v.to_le_bytes());
    }
    data.extend_from_slice(&[0x5d, 0, 0, 0x80, 0, 0, 0, 0, 0, 0, 0, 0, 0, 0, 0, 0, 0, 0]);
    let r = read_quaver_replay(&data).unwrap();
    assert_eq!(r.player_name, "player");
    assert_eq!(r.time_played, 7);
    assert_eq!(r.mode, 1);
    assert_eq!(r.mods.bits, MIRROR | 4);
    assert_eq!(r.score, 900_000);
    assert_eq!(f32::from_bits(r.accuracy_bits), 98.5);
    assert_eq!(r.max_combo, 12);
    assert_eq!(r.count_marv, 10);
    assert_eq!(r.count_perf, 1);
    assert!(r.frames.is_empty());
    assert!(read_quaver_replay(&vec![]).is_err());
}

#[test]
fn full_marvelous_play_scores_a_million() {
    let m = four_key_map(vec![note(0, 1, 0), note(100, 2, 300), note(200, 3, 0)]);
    let mut p = ScoreProcessor::from_map(&m, ModIdentifier::empty(), None);
    assert_eq!(p.total_judgements, 4);
    for _ in 0..4 {
        p.calculate_score_from_judgement(Judgement::Marv, None);
    }
    assert_eq!(p.score, 1_000_000);
    assert_eq!(p.combo, 4);
    assert_eq!(p.max_combo, 4);
    assert_eq!(p.accuracy, 10000);
    assert!(!p.failed());
}

#[test]
fn default_windows_judge_each_tier() {
    let m = four_key_map(vec![note(0, 1, 0), note(100, 2, 0)]);
    let fresh = || ScoreProcessor::from_map(&m, ModIdentifier::empty(), None);
    assert_eq!(fresh().calculate_score_from_hit_difference(18, KeyPressType::PRESS, None), Judgement::Marv);
    assert_eq!(fresh().calculate_score_from_hit_difference(19, KeyPressType::PRESS, None), Judgement::Perf);
    assert_eq!(fresh().calculate_score_from_hit_difference(-50, KeyPressType::PRESS, None), Judgement::Great);
    assert_eq!(fresh().calculate_score_from_hit_difference(164, KeyPressType::PRESS, None), Judgement::Miss);
    assert_eq!(fresh().calculate_score_from_hit_difference(165, KeyPressType::PRESS, None), Judgement::GhostTap);
    assert_eq!(fresh().calculate_score_from_hit_difference(100, KeyPressType::RELEASE, None), Judgement::Great);
    assert_eq!(fresh().calculate_score_from_hit_difference(170, KeyPressType::RELEASE, None), Judgement::Good);
}

#[test]
fn read_string_moves_past_the_string() {
    let mut h = BinaryHelper::from_u8(&[3, b'a', b'b', b'c']);
    assert_eq!(h.read_string(), Some("abc".to_string()));
    assert_eq!(h.remaining_length(), 0);
}

#[test]
fn score_processor_from_replay() {
    let mut data: Vec<u8> = Vec::new();
    for text in ["None", "m", "h", "player", "date"] {
        data.push(text.len() as u8);
        data.extend_from_slice(text.as_bytes());
    }
    data.extend_from_slice(&7i64.to_le_bytes());
    data.extend_from_slice(&1i32.to_le_bytes());
    data.extend_from_slice(&(-1i32).to_le_bytes());
    data.extend_from_slice(&500_000i32.to_le_bytes());
    data.extend_from_slice(&50.0f32.to_bits().to_le_bytes());
    for v in [3i32, 1, 0, 0, 0, 0, 1, 0] {
        data.extend_from_slice(&v.to_le_bytes());
    }
    data.extend_from_slice(&[0x5d, 0, 0, 0x80, 0, 0, 0, 0, 0, 0, 0, 0, 0, 0, 0, 0, 0, 0]);
    let replay = read_quaver_replay(&data).unwrap();
    let p = ScoreProcessor::from_replay(&replay, None);
    assert_eq!(p.score, 500_000);
    assert_eq!(p.max_combo, 3);
    assert_eq!(p.current_judgements, vec![1, 0, 0, 0, 0, 1]);
    // (100 - 50) / 2 percent
    assert_eq!(p.accuracy, 2500);
    assert_eq!(p.health, 10000);
    assert_eq!(p.mods.bits, 0);
}
