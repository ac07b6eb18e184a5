//! Planning decisions of the silence-removal pipeline.
//!
//! Between the normalizer and the cutter sits planning work on plain
//! values: aligning each kept interval to the keyframe found for it and
//! skipping intervals without a usable span, deciding whether a freshly
//! cut segment holds enough video to keep, and refusing to join when no
//! segment was kept at all.

use crate::error::EditError;
use vstd::prelude::*;

verus! {

/// The cut ranges the normalized intervals induce: each interval starts
/// at the keyframe found for it (or, with none found, at its own start,
/// degraded alignment), and an interval whose keyframe lies at or past
/// its end is skipped entirely.
pub open spec fn segment_plan_spec(intervals: Seq<(u32, u32)>, kfs: Seq<Option<u32>>) -> Seq<
    (u32, u32),
>
    decreases intervals.len(),
{
    if intervals.len() == 0 {
        Seq::empty()
    } else {
        let d = segment_plan_spec(intervals.drop_last(), kfs.drop_last());
        let iv = intervals.last();
        let ks = match kfs.last() {
            Some(k) => k,
            None => iv.0,
        };
        if ks < iv.1 {
            d.push((ks, iv.1))
        } else {
            d
        }
    }
}

/// Align each interval to the keyframe found for it and drop intervals
/// without a usable span.
pub fn plan_segments(intervals: &Vec<(u32, u32)>, keyframes: &Vec<Option<u32>>) -> (r: Vec<
    (u32, u32),
>)
    requires
        intervals@.len() == keyframes@.len(),
    ensures
        r@ == segment_plan_spec(intervals@, keyframes@),
{
    let mut r: Vec<(u32, u32)> = Vec::new();
    let mut i: usize = 0;
    while i < intervals.len()
        invariant
            i <= intervals.len(),
            intervals@.len() == keyframes@.len(),
            r@ == segment_plan_spec(intervals@.take(i as int), keyframes@.take(i as int)),
        decreases intervals.len() - i,
    {
        let iv = intervals[i];
        proof {
            assert(intervals@.take(i as int + 1).drop_last() =~= intervals@.take(i as int));
            assert(keyframes@.take(i as int + 1).drop_last() =~= keyframes@.take(i as int));
            assert(intervals@.take(i as int + 1).last() == intervals@[i as int]);
            assert(keyframes@.take(i as int + 1).last() == keyframes@[i as int]);
        }
        let ks = match keyframes[i] {
            Some(k) => k,
            None => iv.0,
        };
        if ks < iv.1 {
            r.push((ks, iv.1));
        }
        i += 1;
    }
    proof {
        assert(intervals@.take(intervals@.len() as int) =~= intervals@);
        assert(keyframes@.take(keyframes@.len() as int) =~= keyframes@);
    }
    r
}

/// A freshly cut segment is kept only when it holds more than two video
/// packets; shorter extractions are unplayable and are discarded.
pub fn accept_segment(video_packets: u64) -> (r: bool)
    ensures
        r == (video_packets > 2),
{
    video_packets > 2
}

/// Joining demands at least one kept segment: with none, the operation
/// fails rather than producing an empty output container.
pub fn join_allowed(segments: usize) -> (r: Result<(), EditError>)
    ensures
        segments > 0 ==> r == Ok::<(), EditError>(()),
        segments == 0 ==> r == Err::<(), EditError>(EditError::NoSegmentsProduced),
{
    if segments == 0 {
        Err(EditError::NoSegmentsProduced)
    } else {
        Ok(())
    }
}

} // verus!
