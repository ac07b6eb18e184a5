use rust_video_editor::classify::frame_energy_s16;
use rust_video_editor::error::EditError;
use rust_video_editor::join::{
    build_mapping, output_stream_count, plan_segment, sort_packets, Ledger, PacketInfo, WriteOp,
};
use rust_video_editor::pipeline::join_allowed;

fn pkt(stream: usize, pts: i64, dts: i64, key: bool, video: bool) -> PacketInfo {
    PacketInfo { stream, pts: Some(pts), dts: Some(dts), key, video }
}

#[test]
fn mapping_skips_unknown_codecs_and_numbers_in_order() {
    let known = vec![true, false, true, true];
    let m = build_mapping(&known);
    assert_eq!(m, vec![Some(0), None, Some(1), Some(2)]);
}

#[test]
fn output_stream_count_counts_known_codecs() {
    assert_eq!(output_stream_count(&vec![true, false, true, true]), 3);
    assert_eq!(output_stream_count(&Vec::new()), 0);
}

#[test]
fn packets_sort_stably_by_presentation_timestamp() {
    let packets = vec![
        pkt(0, 30, 30, false, true),
        pkt(1, 10, 10, false, false),
        pkt(0, 10, 10, true, true),
    ];
    let sorted = sort_packets(&packets);
    let order: Vec<usize> = sorted.iter().map(|p| p.0).collect();
    // Equal timestamps keep their original relative order.
    assert_eq!(order, vec![1, 2, 0]);
}

#[test]
fn first_segment_starts_at_zero_and_keeps_relative_timing() {
    // Video stream 0 starting at pts 1000, audio stream 1 at 2000.
    let packets = vec![
        pkt(0, 1000, 1000, true, true),
        pkt(1, 2000, 2000, false, false),
        pkt(0, 1040, 1040, false, true),
    ];
    let mapping = build_mapping(&vec![true, true]);
    let mut ledger = Ledger::new(2);
    let ops = plan_segment(&packets, &mapping, &mut ledger);
    // ledger starts at -1 per stream, so first written pts is 0.
    let video: Vec<&WriteOp> = ops.iter().filter(|o| o.out_stream == 0).collect();
    assert_eq!(video.len(), 2);
    assert_eq!(video[0].pts, Some(0));
    assert_eq!(video[1].pts, Some(40));
    let audio: Vec<&WriteOp> = ops.iter().filter(|o| o.out_stream == 1).collect();
    assert_eq!(audio.len(), 1);
    assert_eq!(audio[0].pts, Some(0));
    assert_eq!(ledger.last_pts, vec![40, 0]);
}

#[test]
fn second_segment_starts_strictly_after_the_first() {
    let mapping = build_mapping(&vec![true]);
    let mut ledger = Ledger::new(1);
    let seg1 = vec![pkt(0, 500, 500, true, true), pkt(0, 540, 540, false, true)];
    let ops1 = plan_segment(&seg1, &mapping, &mut ledger);
    let last1: i64 = ops1.iter().filter_map(|o| o.pts).max().unwrap();
    let seg2 = vec![pkt(0, 9000, 9000, true, true), pkt(0, 9040, 9040, false, true)];
    let ops2 = plan_segment(&seg2, &mapping, &mut ledger);
    let first2: i64 = ops2[0].pts.unwrap();
    // The offset is computed as last + 1 - first, so the boundary is
    // strictly increasing with no overlap.
    assert!(first2 > last1);
    assert_eq!(first2, last1 + 1);
    let mut all: Vec<i64> = Vec::new();
    all.extend(ops1.iter().filter_map(|o| o.pts));
    all.extend(ops2.iter().filter_map(|o| o.pts));
    for w in all.windows(2) {
        assert!(w[0] < w[1]);
    }
}

#[test]
fn streams_absent_from_the_first_segment_never_appear() {
    // The mapping knows only stream 0; a later segment brings stream 1.
    let mapping = build_mapping(&vec![true]);
    let mut ledger = Ledger::new(1);
    let packets = vec![
        pkt(0, 10, 10, true, true),
        pkt(1, 11, 11, true, false),
        pkt(0, 12, 12, false, true),
        pkt(7, 13, 13, false, false),
    ];
    let ops = plan_segment(&packets, &mapping, &mut ledger);
    assert_eq!(ops.len(), 2);
    for op in ops.iter() {
        assert_eq!(op.src_stream, 0);
        assert_eq!(op.out_stream, 0);
    }
}

#[test]
fn leading_non_keyframe_video_is_dropped_per_segment() {
    let mapping = build_mapping(&vec![true]);
    let mut ledger = Ledger::new(1);
    let packets = vec![
        pkt(0, 100, 100, false, true),
        pkt(0, 140, 140, true, true),
        pkt(0, 180, 180, false, true),
    ];
    let ops = plan_segment(&packets, &mapping, &mut ledger);
    assert_eq!(ops.len(), 2);
    assert!(ops[0].key);
    assert_eq!(ops[0].index, 1);
}

#[test]
fn packets_are_written_in_presentation_order() {
    let mapping = build_mapping(&vec![true]);
    let mut ledger = Ledger::new(1);
    let packets = vec![
        pkt(0, 300, 300, true, true),
        pkt(0, 100, 100, true, true),
        pkt(0, 200, 200, false, true),
    ];
    let ops = plan_segment(&packets, &mapping, &mut ledger);
    assert_eq!(ops.len(), 3);
    assert_eq!(ops[0].index, 1);
    assert_eq!(ops[1].index, 2);
    assert_eq!(ops[2].index, 0);
    let pts: Vec<i64> = ops.iter().map(|o| o.pts.unwrap()).collect();
    assert_eq!(pts, vec![0, 100, 200]);
}

#[test]
fn joining_without_segments_is_refused() {
    assert_eq!(join_allowed(0), Err(EditError::NoSegmentsProduced));
    assert_eq!(join_allowed(3), Ok(()));
}

#[test]
fn all_zero_frame_has_zero_energy() {
    let bytes = vec![0u8; 4096];
    let (energy, count) = frame_energy_s16(&bytes);
    assert_eq!(energy, 0);
    assert_eq!(count, 2048);
}

#[test]
fn energy_sums_squared_samples() {
    // Samples 3 and -2 in signed 16-bit little-endian form.
    let bytes = vec![3u8, 0, 0xFE, 0xFF];
    let (energy, count) = frame_energy_s16(&bytes);
    assert_eq!(energy, 13);
    assert_eq!(count, 2);
}
