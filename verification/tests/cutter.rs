use rust_video_editor::cut::{cut_verdict, find_next_keyframe, plan_cut, CutterState};
use rust_video_editor::detect::{detect_intervals, FrameObs};
use rust_video_editor::error::EditError;
use rust_video_editor::interval::normalize_intervals;
use rust_video_editor::join::{build_mapping, plan_segment, Ledger, PacketInfo};
use rust_video_editor::pipeline::{accept_segment, plan_segments};

fn pkt(stream: usize, pts: i64, key: bool, video: bool) -> PacketInfo {
    PacketInfo { stream, pts: Some(pts), dts: Some(pts), key, video }
}

#[test]
fn keyframe_search_finds_first_match_at_or_after_start() {
    let packets = vec![
        pkt(0, 0, true, true),
        pkt(0, 40, false, true),
        pkt(1, 50, true, false),
        pkt(0, 80, true, true),
        pkt(0, 120, true, true),
    ];
    assert_eq!(find_next_keyframe(&packets, 0, 10), Some(80));
    assert_eq!(find_next_keyframe(&packets, 0, 0), Some(0));
    assert_eq!(find_next_keyframe(&packets, 0, 121), None);
    assert_eq!(find_next_keyframe(&packets, 2, 0), None);
}

#[test]
fn cutter_skips_video_before_first_keyframe_and_bounds_by_pts() {
    let bounds = vec![(50i64, 150i64)];
    let packets = vec![
        pkt(0, 40, false, true),  // before keyframe: dropped silently
        pkt(0, 60, true, true),   // keyframe in range: written
        pkt(0, 100, false, true), // in range: written
        pkt(0, 200, false, true), // past the end: not written
    ];
    let (keep, st) = plan_cut(&packets, &bounds);
    assert_eq!(keep, vec![1, 2]);
    assert_eq!(st.video_packets_written, 2);
    assert_eq!(st.packets_written, 2);
    assert_eq!(cut_verdict(&st), Ok(()));
}

#[test]
fn cut_without_video_fails_distinctly() {
    let bounds = vec![(0i64, 100i64)];
    let packets = vec![pkt(0, 10, false, true), pkt(0, 20, false, true)];
    let (keep, st) = plan_cut(&packets, &bounds);
    assert_eq!(keep, Vec::<usize>::new());
    assert_eq!(st.video_packets_written, 0);
    assert_eq!(cut_verdict(&st), Err(EditError::NoKeyframeInRange));
}

#[test]
fn cutter_state_steps_match_the_batch_plan() {
    let bounds = vec![(0i64, 1000i64), (0, 1000)];
    let packets = vec![
        pkt(0, 5, true, true),
        pkt(1, 6, false, false),
        pkt(0, 7, false, true),
    ];
    let mut st = CutterState::new(bounds.len());
    let mut keep = Vec::new();
    for (i, p) in packets.iter().enumerate() {
        if st.step(p, &bounds) {
            keep.push(i);
        }
    }
    let (keep2, st2) = plan_cut(&packets, &bounds);
    assert_eq!(keep, keep2);
    assert_eq!(st.seen_keyframe, st2.seen_keyframe);
    assert_eq!(st.video_packets_written, st2.video_packets_written);
    assert_eq!(st.packets_written, st2.packets_written);
    assert_eq!(st.packets_written, 3);
}

#[test]
fn video_outside_the_bounds_is_no_usable_cut() {
    // One keyframe, wholly past the requested range: nothing is written,
    // so the cut fails distinctly instead of producing an empty output.
    let bounds = vec![(0i64, 10i64)];
    let packets = vec![pkt(0, 100, true, true)];
    let (keep, st) = plan_cut(&packets, &bounds);
    assert_eq!(keep, Vec::<usize>::new());
    assert_eq!(st.video_packets_written, 0);
    assert_eq!(cut_verdict(&st), Err(EditError::NoKeyframeInRange));
}

#[test]
fn keyframe_gate_is_tracked_per_video_stream() {
    // A keyframe on one video stream leaves the other still waiting.
    let bounds = vec![(0i64, 1000i64), (0, 1000)];
    let packets = vec![
        pkt(0, 10, true, true),   // stream 0 keyframe: written
        pkt(1, 11, false, true),  // stream 1 still before its keyframe: dropped
        pkt(1, 12, true, true),   // stream 1 keyframe: written
        pkt(0, 13, false, true),  // stream 0 after its keyframe: written
    ];
    let (keep, st) = plan_cut(&packets, &bounds);
    assert_eq!(keep, vec![0, 2, 3]);
    assert_eq!(st.video_packets_written, 3);
}

#[test]
fn segment_planning_aligns_to_keyframes_and_skips_unusable_spans() {
    let intervals = vec![(4u32, 9u32), (12, 15), (20, 22)];
    // Keyframe found at 5s for the first, none for the second, and past
    // the end for the third.
    let keyframes = vec![Some(5u32), None, Some(22u32)];
    let plans = plan_segments(&intervals, &keyframes);
    assert_eq!(plans, vec![(5, 9), (12, 15)]);
}

#[test]
fn too_short_segments_are_rejected() {
    assert!(!accept_segment(0));
    assert!(!accept_segment(2));
    assert!(accept_segment(3));
}

#[test]
fn silent_noisy_silent_flows_through_the_whole_plan() {
    // One noisy span 4-9s between silence: detect, normalize, align to
    // the keyframe at 5s, cut, and join a single segment.
    let mut frames = Vec::new();
    for t in 0..12u32 {
        frames.push(FrameObs { noisy: t >= 4 && t < 9, start_sec: t, end_sec: t + 1 });
    }
    let intervals = normalize_intervals(&detect_intervals(&frames));
    assert_eq!(intervals, vec![(4, 9)]);

    // Time base 1/1000: one video packet per 100 ms, keyframes every 1 s.
    let mut packets = Vec::new();
    for i in 0..120i64 {
        packets.push(pkt(0, i * 100, i % 10 == 0, true));
    }
    let kf = find_next_keyframe(&packets, 0, 4000);
    assert_eq!(kf, Some(4000));
    let plans = plan_segments(&intervals, &vec![Some(4u32)]);
    assert_eq!(plans, vec![(4, 9)]);

    let bounds = vec![(4000i64, 9000i64)];
    let (keep, st) = plan_cut(&packets, &bounds);
    assert_eq!(cut_verdict(&st), Ok(()));
    assert!(accept_segment(st.video_packets_written));
    let cut_packets: Vec<PacketInfo> = keep.iter().map(|&i| packets[i]).collect();
    assert_eq!(cut_packets.len(), 51); // 4000..=9000 in steps of 100

    let mapping = build_mapping(&vec![true]);
    let mut ledger = Ledger::new(1);
    let ops = plan_segment(&cut_packets, &mapping, &mut ledger);
    assert_eq!(ops.len(), 51);
    // The output starts at a keyframe, at timestamp zero, strictly
    // increasing, and spans close to (end - keyframe_start).
    assert!(ops[0].key && ops[0].video);
    assert_eq!(ops[0].pts, Some(0));
    for w in ops.windows(2) {
        assert!(w[0].pts.unwrap() < w[1].pts.unwrap());
    }
    assert_eq!(ops.last().unwrap().pts, Some(5000));
}
