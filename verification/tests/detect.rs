use rust_video_editor::detect::{detect_intervals, DetectorState, FrameObs};
use rust_video_editor::timestamp::{frame_end_to_sec, sec_to_ts, sec_to_ts_ceil, ts_to_sec};

fn frame(noisy: bool, start: u32, end: u32) -> FrameObs {
    FrameObs { noisy, start_sec: start, end_sec: end }
}

#[test]
fn noisy_run_becomes_one_interval() {
    // Silent 0-4s, noisy 4-9s, silent 9-12s: one interval (4,9).
    let mut frames = Vec::new();
    for t in 0..12u32 {
        frames.push(frame(t >= 4 && t < 9, t, t + 1));
    }
    assert_eq!(detect_intervals(&frames), vec![(4, 9)]);
}

#[test]
fn fully_silent_input_yields_no_intervals() {
    let mut frames = Vec::new();
    for t in 0..10u32 {
        frames.push(frame(false, t, t + 1));
    }
    assert_eq!(detect_intervals(&frames), Vec::<(u32, u32)>::new());
}

#[test]
fn open_interval_is_flushed_at_end_of_input() {
    let frames = vec![frame(false, 0, 1), frame(true, 1, 2), frame(true, 2, 3)];
    assert_eq!(detect_intervals(&frames), vec![(1, 3)]);
}

#[test]
fn two_runs_give_two_intervals() {
    let frames = vec![
        frame(true, 0, 1),
        frame(false, 1, 2),
        frame(true, 5, 6),
        frame(true, 6, 7),
        frame(false, 7, 8),
    ];
    assert_eq!(detect_intervals(&frames), vec![(0, 1), (5, 7)]);
}

#[test]
fn streaming_observation_matches_batch_detection() {
    let frames = vec![
        frame(true, 0, 1),
        frame(true, 1, 2),
        frame(false, 2, 3),
        frame(true, 8, 9),
    ];
    let mut st = DetectorState::new();
    let mut got = Vec::new();
    for f in frames.iter() {
        if let Some(iv) = st.observe(*f) {
            got.push(iv);
        }
    }
    if let Some(iv) = st.finish() {
        got.push(iv);
    }
    assert_eq!(got, detect_intervals(&frames));
    assert_eq!(got, vec![(0, 2), (8, 9)]);
}

#[test]
fn timestamp_to_seconds_floors_and_clamps() {
    assert_eq!(ts_to_sec(90000, 1, 90000), 1);
    assert_eq!(ts_to_sec(179999, 1, 90000), 1);
    assert_eq!(ts_to_sec(-5, 1, 90000), 0);
    assert_eq!(ts_to_sec(1001, 1, 1000), 1);
}

#[test]
fn frame_end_includes_duration() {
    // A frame starting at 1s holding one second of audio ends at 2s.
    assert_eq!(frame_end_to_sec(90000, 1, 90000, 44100, 44100), 2);
    // Half a second of audio at the start of the file ends in second 0.
    assert_eq!(frame_end_to_sec(0, 1, 90000, 22050, 44100), 0);
    assert_eq!(frame_end_to_sec(-10, 1, 90000, 44100, 44100), 1);
}

#[test]
fn seconds_to_timestamp_uses_the_time_base() {
    assert_eq!(sec_to_ts(2, 1, 90000), 180000);
    assert_eq!(sec_to_ts(10, 1001, 30000), 299); // 10 * 30000 / 1001, floored
    assert_eq!(sec_to_ts(0, 1, 90000), 0);
}

#[test]
fn start_bounds_round_up_to_the_unit_at_or_after() {
    // With two seconds per unit, second 5 lies inside unit 2; the first
    // unit at or after it is 3, so a keyframe found there is at 6s >= 5s.
    assert_eq!(sec_to_ts(5, 2, 1), 2);
    assert_eq!(sec_to_ts_ceil(5, 2, 1), 3);
    assert_eq!(ts_to_sec(3, 2, 1), 6);
    // A fine time base divides seconds exactly: floor and ceiling agree.
    assert_eq!(sec_to_ts_ceil(2, 1, 90000), 180000);
    assert_eq!(sec_to_ts_ceil(10, 1001, 30000), 300);
}
