use render_core::mix::{mix_audio, MixError, Timestamp, RATE_ONE, TIME_ONE, VOLUME_ONE};
use render_core::store::TrackStore;

fn ts(sound: &str, time: u64, volume: u32, rate: u32) -> Timestamp {
    Timestamp { sound: sound.to_string(), time, volume, rate }
}

/// One full-scale sample at volume 1.0, as a buffer cell.
const CELL_ONE: i128 = 32767 * 65536 * 65536;

#[test]
fn two_sounds_overlapping_scenario() {
    // "kick": three full-scale samples at cell 0; "hat": two half-scale
    // samples at half volume, landing at cell 2. Six-cell buffer
    // (three seconds at one sample per second, two channels). The
    // overlap cell holds the plain sum of both contributions.
    let mut store = TrackStore::new();
    store.insert("kick".to_string(), vec![32767, 32767, 32767]);
    store.insert("hat".to_string(), vec![16384, 16384]);
    let events = vec![
        ts("kick", 0, VOLUME_ONE, RATE_ONE),
        ts("hat", TIME_ONE, VOLUME_ONE / 2, RATE_ONE),
    ];
    let buf = mix_audio(&store, &events, 3 * TIME_ONE, 1).unwrap();
    let kick_cell: i128 = 32767 * 65536 * 65536;
    let hat_cell: i128 = 16384 * 65536 * 32768;
    assert_eq!(buf, vec![
        kick_cell,
        kick_cell,
        kick_cell + hat_cell,
        hat_cell,
        0,
        0,
    ]);
}

#[test]
fn unknown_sound_aborts_without_partial_result() {
    let mut store = TrackStore::new();
    store.insert("kick".to_string(), vec![32767]);
    let events = vec![
        ts("kick", 0, VOLUME_ONE, RATE_ONE),
        ts("ghost", 0, VOLUME_ONE, RATE_ONE),
    ];
    match mix_audio(&store, &events, TIME_ONE, 44100) {
        Err(MixError::UnknownSound(key)) => assert_eq!(key, "ghost"),
        Ok(_) => panic!("a mix with an unresolved key must not produce a buffer"),
    }
}

#[test]
fn unknown_sound_names_the_first_missing_key() {
    let store = TrackStore::new();
    let events = vec![
        ts("first", 0, VOLUME_ONE, RATE_ONE),
        ts("second", 0, VOLUME_ONE, RATE_ONE),
    ];
    match mix_audio(&store, &events, TIME_ONE, 1) {
        Err(MixError::UnknownSound(key)) => assert_eq!(key, "first"),
        Ok(_) => panic!("unresolved keys must abort"),
    }
}

#[test]
fn event_past_the_end_is_silently_dropped() {
    let mut store = TrackStore::new();
    store.insert("kick".to_string(), vec![32767, 32767]);
    // Placed a thousand seconds into a one-second timeline.
    let events = vec![ts("kick", 1000 * TIME_ONE, VOLUME_ONE, RATE_ONE)];
    let buf = mix_audio(&store, &events, TIME_ONE, 4).unwrap();
    assert_eq!(buf, vec![0i128; 8]);
}

#[test]
fn event_near_the_end_is_truncated_not_an_error() {
    let mut store = TrackStore::new();
    store.insert("kick".to_string(), vec![1000, 2000, 3000, 4000]);
    // Buffer of 8 cells; the event starts at cell 6 and only two of its
    // four samples fit.
    let events = vec![ts("kick", 3 * TIME_ONE, VOLUME_ONE, RATE_ONE)];
    let buf = mix_audio(&store, &events, 4 * TIME_ONE, 1).unwrap();
    let unit: i128 = 65536 * 65536;
    assert_eq!(buf, vec![0, 0, 0, 0, 0, 0, 1000 * unit, 2000 * unit]);
}

#[test]
fn mixing_order_does_not_change_the_buffer() {
    let mut store = TrackStore::new();
    store.insert("a".to_string(), vec![100, -200, 300]);
    store.insert("b".to_string(), vec![-50, 75]);
    let one = vec![
        ts("a", 0, VOLUME_ONE, RATE_ONE),
        ts("b", TIME_ONE / 2, 40000, RATE_ONE),
        ts("a", TIME_ONE, VOLUME_ONE / 4, 2 * RATE_ONE),
    ];
    let other = vec![one[2].clone(), one[0].clone(), one[1].clone()];
    let buf_one = mix_audio(&store, &one, 2 * TIME_ONE, 3).unwrap();
    let buf_other = mix_audio(&store, &other, 2 * TIME_ONE, 3).unwrap();
    assert_eq!(buf_one, buf_other);
}

#[test]
fn doubling_volume_doubles_that_contribution_only() {
    let mut store = TrackStore::new();
    store.insert("a".to_string(), vec![123, -456]);
    store.insert("b".to_string(), vec![789]);
    let vol: u32 = 30000;
    let base = vec![
        ts("a", 0, vol, RATE_ONE),
        ts("b", 0, 5000, RATE_ONE),
    ];
    let doubled = vec![
        ts("a", 0, 2 * vol, RATE_ONE),
        ts("b", 0, 5000, RATE_ONE),
    ];
    let alone = vec![ts("a", 0, vol, RATE_ONE)];
    let buf_base = mix_audio(&store, &base, TIME_ONE, 2).unwrap();
    let buf_doubled = mix_audio(&store, &doubled, TIME_ONE, 2).unwrap();
    let buf_alone = mix_audio(&store, &alone, TIME_ONE, 2).unwrap();
    for j in 0..buf_base.len() {
        assert_eq!(buf_doubled[j], buf_base[j] + buf_alone[j]);
        assert_eq!(buf_doubled[j] - buf_base[j], buf_alone[j]);
    }
}

#[test]
fn double_rate_consumes_half_the_source() {
    let mut store = TrackStore::new();
    store.insert("a".to_string(), vec![1000, 1000, 1000, 1000, 1000]);
    let normal = vec![ts("a", 0, VOLUME_ONE, RATE_ONE)];
    let fast = vec![ts("a", 0, VOLUME_ONE, 2 * RATE_ONE)];
    let buf_normal = mix_audio(&store, &normal, 5 * TIME_ONE, 1).unwrap();
    let buf_fast = mix_audio(&store, &fast, 5 * TIME_ONE, 1).unwrap();
    let written = |b: &Vec<i128>| b.iter().filter(|c| **c != 0).count();
    // Five samples at rate 1.0 fill five cells; at rate 2.0, three
    // (every other sample, rounding up).
    assert_eq!(written(&buf_normal), 5);
    assert_eq!(written(&buf_fast), 3);
}

#[test]
fn rate_one_interpolation_is_the_direct_copy() {
    let mut store = TrackStore::new();
    store.insert("a".to_string(), vec![321, -654, 987]);
    let events = vec![ts("a", 0, 12345, RATE_ONE)];
    let buf = mix_audio(&store, &events, 3 * TIME_ONE, 1).unwrap();
    let unit: i128 = 65536 * 12345;
    assert_eq!(buf[0], 321 * unit);
    assert_eq!(buf[1], -654 * unit);
    assert_eq!(buf[2], 987 * unit);
    assert_eq!(buf[3], 0);
}

#[test]
fn half_rate_interpolates_midpoints() {
    let mut store = TrackStore::new();
    store.insert("a".to_string(), vec![0, 32767]);
    // Rate 0.5: cursor 0, 0.5, 1.0; the half step is the exact midpoint
    // of the two samples, at the fixed-point scale.
    let events = vec![ts("a", 0, VOLUME_ONE, RATE_ONE / 2)];
    let buf = mix_audio(&store, &events, 2 * TIME_ONE, 2).unwrap();
    assert_eq!(buf[0], 0);
    assert_eq!(buf[1], 32767i128 * 32768 * 65536);
    assert_eq!(buf[2], 32767i128 * 65536 * 65536);
    assert_eq!(buf[3], 0);
}

#[test]
fn offsets_round_to_the_nearest_sample() {
    let mut store = TrackStore::new();
    store.insert("a".to_string(), vec![500]);
    // 0.4 seconds at 1 Hz rounds to sample 0; 0.6 rounds to sample 1.
    let early = vec![ts("a", 2 * TIME_ONE / 5, VOLUME_ONE, RATE_ONE)];
    let late = vec![ts("a", 3 * TIME_ONE / 5, VOLUME_ONE, RATE_ONE)];
    let unit: i128 = 65536 * 65536;
    let buf_early = mix_audio(&store, &early, 2 * TIME_ONE, 1).unwrap();
    assert_eq!(buf_early, vec![500 * unit, 0, 0, 0]);
    let buf_late = mix_audio(&store, &late, 2 * TIME_ONE, 1).unwrap();
    assert_eq!(buf_late, vec![0, 0, 500 * unit, 0]);
}

#[test]
fn polyphony_same_sound_twice_adds() {
    let mut store = TrackStore::new();
    store.insert("a".to_string(), vec![100]);
    let events = vec![
        ts("a", 0, VOLUME_ONE, RATE_ONE),
        ts("a", 0, VOLUME_ONE, RATE_ONE),
    ];
    let buf = mix_audio(&store, &events, TIME_ONE, 1).unwrap();
    assert_eq!(buf[0], 2 * 100 * 65536i128 * 65536);
}

#[test]
fn full_scale_constant_matches_cell_arithmetic() {
    let mut store = TrackStore::new();
    store.insert("a".to_string(), vec![32767]);
    let events = vec![ts("a", 0, VOLUME_ONE, RATE_ONE)];
    let buf = mix_audio(&store, &events, TIME_ONE, 1).unwrap();
    assert_eq!(buf[0], CELL_ONE);
    assert_eq!(buf[0], render_core::mix::MIX_ONE);
}

#[test]
fn empty_event_list_gives_silence() {
    let store = TrackStore::new();
    let buf = mix_audio(&store, &vec![], 2 * TIME_ONE, 44100).unwrap();
    assert_eq!(buf.len(), 2 * 44100 * 2);
    assert!(buf.iter().all(|c| *c == 0));
}

#[test]
fn buffer_length_rounds_duration_up() {
    let store = TrackStore::new();
    // 1.5 seconds at 3 Hz: ceil(4.5) = 5 samples, 10 cells.
    let buf = mix_audio(&store, &vec![], 3 * TIME_ONE / 2, 3).unwrap();
    assert_eq!(buf.len(), 10);
}
