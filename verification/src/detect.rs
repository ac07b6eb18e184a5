//! Noisy-interval detection over a stream of classified audio frames.
//!
//! Frames arrive in timestamp order, each already classified noisy or not
//! and carrying its start and end in whole seconds. The detector keeps at
//! most one open interval: it opens on the first noisy frame of a run,
//! extends the recorded end on every further noisy frame, and emits the
//! closed interval when a non-noisy frame arrives. An interval still open
//! when the input ends is flushed.

use vstd::prelude::*;

verus! {

/// One decoded audio frame as the detector sees it.
#[derive(Clone, Copy, PartialEq, Eq, Structural, Debug)]
pub struct FrameObs {
    /// Whether the loudness classifier called the frame noisy.
    pub noisy: bool,
    /// The frame's start, in whole seconds.
    pub start_sec: u32,
    /// The frame's end, in whole seconds.
    pub end_sec: u32,
}

/// Detector state: the currently open interval, if any.
#[derive(Clone, Copy, PartialEq, Eq, Structural, Debug)]
pub struct DetectorState {
    /// Whether an interval is open.
    pub open: bool,
    /// Start of the open interval; zero when closed.
    pub start: u32,
    /// End recorded by the most recent noisy frame; zero when closed.
    pub end: u32,
}

/// The state before any frame was seen.
pub open spec fn initial_state() -> DetectorState {
    DetectorState { open: false, start: 0, end: 0 }
}

/// One transition of the detector: the next state, and the interval
/// emitted by this frame, if any.
pub open spec fn detect_step_spec(st: DetectorState, f: FrameObs) -> (DetectorState, Option<
    (u32, u32),
>) {
    if f.noisy {
        if st.open {
            (DetectorState { open: true, start: st.start, end: f.end_sec }, None)
        } else {
            (DetectorState { open: true, start: f.start_sec, end: f.end_sec }, None)
        }
    } else {
        if st.open {
            (initial_state(), Some((st.start, st.end)))
        } else {
            (st, None)
        }
    }
}

/// `s` with `o`'s interval, if any, prepended.
pub open spec fn opt_prepend(o: Option<(u32, u32)>, s: Seq<(u32, u32)>) -> Seq<(u32, u32)> {
    match o {
        Some(iv) => seq![iv] + s,
        None => s,
    }
}

/// Run the detector over `frames` from state `st`: the emitted intervals
/// in order, and the final state.
pub open spec fn detect_run(frames: Seq<FrameObs>, st: DetectorState) -> (Seq<(u32, u32)>,
    DetectorState)
    decreases frames.len(),
{
    if frames.len() == 0 {
        (Seq::empty(), st)
    } else {
        let step = detect_step_spec(st, frames[0]);
        let rest = detect_run(frames.skip(1), step.0);
        (opt_prepend(step.1, rest.0), rest.1)
    }
}

/// All intervals the detector emits for `frames`, the flush of a still
/// open interval at end of input included.
pub open spec fn detect_spec(frames: Seq<FrameObs>) -> Seq<(u32, u32)> {
    let run = detect_run(frames, initial_state());
    if run.1.open {
        run.0.push((run.1.start, run.1.end))
    } else {
        run.0
    }
}

impl DetectorState {
    /// A detector with no open interval.
    pub fn new() -> (st: DetectorState)
        ensures
            st == initial_state(),
    {
        DetectorState { open: false, start: 0, end: 0 }
    }

    /// Feed one classified frame; returns the interval closed by this
    /// frame, if any.
    pub fn observe(&mut self, f: FrameObs) -> (out: Option<(u32, u32)>)
        ensures
            *final(self) == detect_step_spec(*old(self), f).0,
            out == detect_step_spec(*old(self), f).1,
    {
        if f.noisy {
            if !self.open {
                self.start = f.start_sec;
            }
            self.open = true;
            self.end = f.end_sec;
            None
        } else {
            if self.open {
                let iv = (self.start, self.end);
                self.open = false;
                self.start = 0;
                self.end = 0;
                Some(iv)
            } else {
                None
            }
        }
    }

    /// End of input: the still open interval, if any.
    pub fn finish(self) -> (out: Option<(u32, u32)>)
        ensures
            out == (if self.open {
                Some((self.start, self.end))
            } else {
                None::<(u32, u32)>
            }),
    {
        if self.open {
            Some((self.start, self.end))
        } else {
            None
        }
    }
}

/// Detect all noisy intervals in a frame sequence, flush included.
pub fn detect_intervals(frames: &Vec<FrameObs>) -> (r: Vec<(u32, u32)>)
    ensures
        r@ == detect_spec(frames@),
{
    let ghost full = detect_run(frames@, initial_state());
    let mut st = DetectorState::new();
    let mut r: Vec<(u32, u32)> = Vec::new();
    let mut i: usize = 0;
    proof {
        assert(frames@.skip(0) =~= frames@);
        assert(Seq::<(u32, u32)>::empty() + full.0 =~= full.0);
    }
    while i < frames.len()
        invariant
            i <= frames.len(),
            full == detect_run(frames@, initial_state()),
            full.0 == r@ + detect_run(frames@.skip(i as int), st).0,
            full.1 == detect_run(frames@.skip(i as int), st).1,
        decreases frames.len() - i,
    {
        let ghost sfx = frames@.skip(i as int);
        let ghost st_old = st;
        proof {
            assert(sfx.len() > 0);
            assert(sfx[0] == frames@[i as int]);
            assert(sfx.skip(1) =~= frames@.skip(i as int + 1));
        }
        let f = frames[i];
        let out = st.observe(f);
        match out {
            Some(iv) => {
                proof {
                    let tail = detect_run(frames@.skip(i as int + 1), st).0;
                    assert(r@ + (seq![iv] + tail) =~= (r@ + seq![iv]) + tail);
                    assert(r@.push(iv) =~= r@ + seq![iv]);
                }
                r.push(iv);
            },
            None => {},
        }
        i += 1;
    }
    proof {
        assert(frames@.skip(frames@.len() as int) =~= Seq::<FrameObs>::empty());
        assert(r@ + Seq::<(u32, u32)>::empty() =~= r@);
    }
    let last = st.finish();
    match last {
        Some(iv) => {
            r.push(iv);
        },
        None => {},
    }
    r
}

} // verus!
