//! Keyframe search and the bounded packet-range cutter.
//!
//! Cutting copies packets verbatim between containers. Per video stream,
//! leading packets up to the first keyframe are dropped; every packet is
//! then kept when its presentation timestamp lies inside its stream's
//! bounds. A cut that writes no video packet at all fails distinctly, so
//! callers can skip the interval instead of aborting.

use crate::error::EditError;
use crate::join::PacketInfo;
use vstd::pervasive::VecAdditionalExecFns;
use vstd::prelude::*;

verus! {

/// Whether a packet is the kind of keyframe a cut may start at: it
/// belongs to `stream`, carries a presentation timestamp at or after
/// `start_ts`, and has the keyframe flag.
pub open spec fn keyframe_match(p: PacketInfo, stream: int, start_ts: int) -> bool {
    p.stream as int == stream && p.key && p.pts is Some && p.pts->0 >= start_ts
}

/// The presentation timestamp of the first qualifying keyframe in `s`.
pub open spec fn find_keyframe_spec(s: Seq<PacketInfo>, stream: int, start_ts: int) -> Option<i64>
    decreases s.len(),
{
    if s.len() == 0 {
        None
    } else if keyframe_match(s[0], stream, start_ts) {
        s[0].pts
    } else {
        find_keyframe_spec(s.skip(1), stream, start_ts)
    }
}

/// Whether this packet is the keyframe a scan for `stream` at or after
/// `start_ts` stops at.
pub fn is_keyframe_match(p: &PacketInfo, stream: usize, start_ts: i64) -> (r: bool)
    ensures
        r == keyframe_match(*p, stream as int, start_ts as int),
{
    if p.stream == stream && p.key {
        match p.pts {
            Some(t) => t >= start_ts,
            None => false,
        }
    } else {
        false
    }
}

/// Scan packets in container order for the first keyframe of `stream`
/// with a presentation timestamp at or after `start_ts`. A bound derived
/// from whole seconds should round up (`sec_to_ts_ceil`), so that the
/// keyframe found never precedes the second asked for
/// (`lemma_ceil_ts_at_or_after`).
pub fn find_next_keyframe(packets: &Vec<PacketInfo>, stream: usize, start_ts: i64) -> (r: Option<
    i64,
>)
    ensures
        r == find_keyframe_spec(packets@, stream as int, start_ts as int),
{
    let ghost full = find_keyframe_spec(packets@, stream as int, start_ts as int);
    let mut i: usize = 0;
    proof {
        assert(packets@.skip(0) =~= packets@);
    }
    while i < packets.len()
        invariant
            i <= packets.len(),
            full == find_keyframe_spec(packets@, stream as int, start_ts as int),
            full == find_keyframe_spec(packets@.skip(i as int), stream as int, start_ts as int),
        decreases packets.len() - i,
    {
        proof {
            assert(packets@.skip(i as int)[0] == packets@[i as int]);
            assert(packets@.skip(i as int).skip(1) =~= packets@.skip(i as int + 1));
        }
        let p = packets[i];
        if is_keyframe_match(&p, stream, start_ts) {
            return p.pts;
        }
        i += 1;
    }
    proof {
        assert(packets@.skip(packets@.len() as int) =~= Seq::<PacketInfo>::empty());
    }
    None
}

/// Running state of one cut: per video stream, whether its first
/// keyframe was seen yet; and how many video packets and packets in all
/// were actually written.
#[derive(Clone, Debug)]
pub struct CutterState {
    pub seen_keyframe: Vec<bool>,
    pub video_packets_written: u64,
    pub packets_written: u64,
}

/// The cutter state as mathematical values.
pub struct CutModel {
    pub seen: Seq<bool>,
    pub video_written: int,
    pub written: int,
}

/// The mathematical value of a cutter state.
pub open spec fn cut_model(st: CutterState) -> CutModel {
    CutModel {
        seen: st.seen_keyframe@,
        video_written: st.video_packets_written as int,
        written: st.packets_written as int,
    }
}

/// One cutter transition: the state after the packet, and whether the
/// packet is written. A video packet before its own stream's first
/// keyframe is dropped silently; any other packet is written exactly
/// when its presentation timestamp lies inside its stream's bounds
/// (packets without one included), and only written packets count.
pub open spec fn cut_step_spec(m: CutModel, p: PacketInfo, bounds: Seq<(i64, i64)>) -> (
    CutModel,
    bool,
) {
    let stream = p.stream as int;
    let gate_open = stream < m.seen.len() && m.seen[stream];
    if p.video && !gate_open && !p.key {
        (m, false)
    } else {
        let seen2 = if p.video && stream < m.seen.len() {
            m.seen.update(stream, true)
        } else {
            m.seen
        };
        let write = stream < bounds.len() && (match p.pts {
            Some(t) => bounds[stream].0 <= t && t <= bounds[stream].1,
            None => true,
        });
        if write {
            (
                CutModel {
                    seen: seen2,
                    video_written: m.video_written + if p.video {
                        1int
                    } else {
                        0int
                    },
                    written: m.written + 1,
                },
                true,
            )
        } else {
            (CutModel { seen: seen2, video_written: m.video_written, written: m.written }, false)
        }
    }
}

impl CutterState {
    /// A fresh cut over `n_streams` streams: no keyframe seen, nothing
    /// written.
    pub fn new(n_streams: usize) -> (st: CutterState)
        ensures
            st.seen_keyframe@ == Seq::new(n_streams as nat, |i: int| false),
            st.video_packets_written == 0,
            st.packets_written == 0,
    {
        let mut seen: Vec<bool> = Vec::new();
        let mut i: usize = 0;
        while i < n_streams
            invariant
                i <= n_streams,
                seen@.len() == i as int,
                forall|k: int| #![trigger seen@[k]] 0 <= k < i as int ==> seen@[k] == false,
            decreases n_streams - i,
        {
            seen.push(false);
            i += 1;
        }
        proof {
            assert(seen@ =~= Seq::new(n_streams as nat, |i: int| false));
        }
        CutterState { seen_keyframe: seen, video_packets_written: 0, packets_written: 0 }
    }

    /// Feed one packet; returns whether it is written.
    pub fn step(&mut self, p: &PacketInfo, bounds: &Vec<(i64, i64)>) -> (write: bool)
        requires
            old(self).video_packets_written < u64::MAX,
            old(self).packets_written < u64::MAX,
        ensures
            cut_model(*final(self)) == cut_step_spec(cut_model(*old(self)), *p, bounds@).0,
            write == cut_step_spec(cut_model(*old(self)), *p, bounds@).1,
    {
        let gate_open = p.stream < self.seen_keyframe.len() && self.seen_keyframe[p.stream];
        if p.video && !gate_open && !p.key {
            return false;
        }
        if p.video && p.stream < self.seen_keyframe.len() {
            self.seen_keyframe.set(p.stream, true);
        }
        let mut write = false;
        if p.stream < bounds.len() {
            let b = bounds[p.stream];
            write = match p.pts {
                Some(t) => b.0 <= t && t <= b.1,
                None => true,
            };
        }
        if write {
            if p.video {
                self.video_packets_written = self.video_packets_written + 1;
            }
            self.packets_written = self.packets_written + 1;
        }
        write
    }
}

/// After the scan: succeed, or fail distinctly when not a single video
/// packet was written for the range (most likely there was no keyframe
/// to start at).
pub fn cut_verdict(st: &CutterState) -> (r: Result<(), EditError>)
    ensures
        st.video_packets_written > 0 ==> r == Ok::<(), EditError>(()),
        st.video_packets_written == 0 ==> r == Err::<(), EditError>(EditError::NoKeyframeInRange),
{
    if st.video_packets_written == 0 {
        Err(EditError::NoKeyframeInRange)
    } else {
        Ok(())
    }
}

/// The model of a fresh cut over `n_streams` streams.
pub open spec fn fresh_cut(n_streams: int) -> CutModel {
    CutModel { seen: Seq::new(n_streams as nat, |i: int| false), video_written: 0, written: 0 }
}

/// The cutter run over a whole packet sequence: the positions (from
/// `pos` on) of the packets that are written, and the final state.
pub open spec fn cut_run(
    s: Seq<PacketInfo>,
    bounds: Seq<(i64, i64)>,
    m: CutModel,
    pos: int,
) -> (Seq<int>, CutModel)
    decreases s.len(),
{
    if s.len() == 0 {
        (Seq::empty(), m)
    } else {
        let step = cut_step_spec(m, s[0], bounds);
        let rest = cut_run(s.skip(1), bounds, step.0, pos + 1);
        if step.1 {
            (seq![pos] + rest.0, rest.1)
        } else {
            rest
        }
    }
}

/// Plan a whole cut, tracking one keyframe gate per stream of `bounds`:
/// which packets of the sequence are copied, and the final state for the
/// verdict.
pub fn plan_cut(packets: &Vec<PacketInfo>, bounds: &Vec<(i64, i64)>) -> (r: (Vec<usize>,
    CutterState))
    ensures
        r.0@.map_values(|i: usize| i as int) == cut_run(
            packets@,
            bounds@,
            fresh_cut(bounds@.len() as int),
            0,
        ).0,
        cut_model(r.1) == cut_run(packets@, bounds@, fresh_cut(bounds@.len() as int), 0).1,
{
    let ghost full = cut_run(packets@, bounds@, fresh_cut(bounds@.len() as int), 0);
    let mut st = CutterState::new(bounds.len());
    let mut keep: Vec<usize> = Vec::new();
    let mut i: usize = 0;
    proof {
        assert(packets@.skip(0) =~= packets@);
        assert(keep@.map_values(|i: usize| i as int) =~= Seq::<int>::empty());
        assert(Seq::<int>::empty() + full.0 =~= full.0);
        assert(cut_model(st) == fresh_cut(bounds@.len() as int));
    }
    while i < packets.len()
        invariant
            i <= packets.len(),
            st.video_packets_written <= i as int,
            st.packets_written <= i as int,
            full == cut_run(packets@, bounds@, fresh_cut(bounds@.len() as int), 0),
            keep@.map_values(|i: usize| i as int) + cut_run(
                packets@.skip(i as int),
                bounds@,
                cut_model(st),
                i as int,
            ).0 == full.0,
            cut_run(packets@.skip(i as int), bounds@, cut_model(st), i as int).1 == full.1,
        decreases packets.len() - i,
    {
        proof {
            assert(packets@.skip(i as int)[0] == packets@[i as int]);
            assert(packets@.skip(i as int).skip(1) =~= packets@.skip(i as int + 1));
        }
        let p = packets[i];
        let write = st.step(&p, bounds);
        if write {
            proof {
                let f = |i: usize| i as int;
                let tail = cut_run(
                    packets@.skip(i as int + 1),
                    bounds@,
                    cut_model(st),
                    i as int + 1,
                ).0;
                assert(keep@.push(i).map_values(f) =~= keep@.map_values(f).push(i as int));
                assert(keep@.map_values(f).push(i as int) + tail =~= keep@.map_values(f) + (seq![
                    i as int,
                ] + tail));
            }
            keep.push(i);
        }
        i += 1;
    }
    proof {
        assert(packets@.skip(packets@.len() as int) =~= Seq::<PacketInfo>::empty());
        assert(keep@.map_values(|i: usize| i as int) + Seq::<int>::empty() =~= keep@.map_values(
            |i: usize| i as int,
        ));
    }
    (keep, st)
}

} // verus!
