//! Housing status of captured frames.
//!
//! The population counter is drawn with a housed overlay ("overlay") when the player is
//! out of houses, and yellow ("yellow") when more units are queued than there is room
//! for. Both signals flicker, so frames between two such anchors close enough in time
//! are held back and, once the second anchor arrives, given the anchors' status
//! ("housed" or "queued") when their free population is no larger than the anchors'.
//! Every other frame is "normal". Frames leave the engine in the order they came in.
use vstd::prelude::*;
use crate::text::str_eq;
use crate::types::{Results, ResultKey};

verus! {

pub open spec fn status_key() -> ResultKey {
    ("population"@, "status"@)
}

/// The housing status recorded in a frame's readings ("normal" when none is).
pub open spec fn status_of(m: Map<ResultKey, Seq<char>>) -> Seq<char> {
    if m.contains_key(status_key()) {
        m[status_key()]
    } else {
        "normal"@
    }
}

pub open spec fn with_status(m: Map<ResultKey, Seq<char>>, s: Seq<char>) -> Map<
    ResultKey,
    Seq<char>,
> {
    m.insert(status_key(), s)
}

pub fn set_housing_status(results: &mut Results, status: &str)
    ensures
        final(results)@ == with_status(old(results)@, status@),
{
    results.insert("population", "status", status);
}

pub fn get_housing_status(results: &Results) -> (s: String)
    ensures
        s@ == status_of(results@),
{
    match results.get("population", "status") {
        Some(v) => v.clone(),
        None => "normal".to_owned(),
    }
}

#[derive(Debug, Clone)]
pub struct CapturedFrame {
    pub timestamp_ms: u64,
    pub frame_idx: u64,
    pub pop_color: String,
    pub pop_curr: u32,
    pub pop_max: u32,
    pub row_data: Results,
}

impl CapturedFrame {
    /// Free population: housing capacity minus current population.
    pub fn pop_diff(&self) -> (d: i64)
        ensures
            d == self.pop_max - self.pop_curr,
    {
        (self.pop_max as i64) - (self.pop_curr as i64)
    }
}

/// A held-back frame: its readings, timestamp and free population.
pub type PendingView = (Map<ResultKey, Seq<char>>, u64, int);

/// An anchor: its timestamp and free population.
pub type AnchorView = (u64, int);

pub struct EngineView {
    pub housed_timeout_ms: u64,
    pub queued_timeout_ms: u64,
    pub pending: Seq<PendingView>,
    pub housed_anchor: Option<AnchorView>,
    pub queued_anchor: Option<AnchorView>,
}

/// A frame as the engine sees it.
pub struct FrameView {
    pub row: Map<ResultKey, Seq<char>>,
    pub ts: u64,
    pub diff: int,
    pub color: Seq<char>,
}

pub open spec fn frame_view(f: CapturedFrame) -> FrameView {
    FrameView {
        row: f.row_data@,
        ts: f.timestamp_ms,
        diff: f.pop_max - f.pop_curr,
        color: f.pop_color@,
    }
}

pub open spec fn within(a: Option<AnchorView>, ts: u64, timeout: u64) -> bool {
    match a {
        Some(x) => ts - x.0 <= timeout,
        None => false,
    }
}

pub open spec fn max_int(a: int, b: int) -> int {
    if a >= b {
        a
    } else {
        b
    }
}

/// Held-back frames with free population at most `max_diff` marked "housed".
pub open spec fn bridge_housed(p: Seq<PendingView>, max_diff: int) -> Seq<PendingView> {
    p.map_values(
        |x: PendingView|
            if x.2 <= max_diff {
                (with_status(x.0, "housed"@), x.1, x.2)
            } else {
                x
            },
    )
}

/// Held-back frames that are still "normal" and have free population at most `max_diff`
/// marked "queued".
pub open spec fn bridge_queued(p: Seq<PendingView>, max_diff: int) -> Seq<PendingView> {
    p.map_values(
        |x: PendingView|
            if status_of(x.0) == "normal"@ && x.2 <= max_diff {
                (with_status(x.0, "queued"@), x.1, x.2)
            } else {
                x
            },
    )
}

pub open spec fn emitted(p: Seq<PendingView>) -> Seq<(Map<ResultKey, Seq<char>>, u64)> {
    p.map_values(|x: PendingView| (x.0, x.1))
}

/// What the engine does with one frame: the new state, and the rows it releases.
pub open spec fn process_spec(e: EngineView, f: FrameView) -> (EngineView, Seq<
    (Map<ResultKey, Seq<char>>, u64),
>) {
    let is_overlay = f.color == "overlay"@;
    let is_yellow = f.color == "yellow"@;
    let row0 = with_status(f.row, "normal"@);
    let me: AnchorView = (f.ts, f.diff);
    if is_overlay || is_yellow {
        let p1 = if is_overlay && within(e.housed_anchor, f.ts, e.housed_timeout_ms) {
            bridge_housed(e.pending, max_int((e.housed_anchor->0).1, f.diff))
        } else {
            e.pending
        };
        let p2 = if within(e.queued_anchor, f.ts, e.queued_timeout_ms) {
            bridge_queued(p1, max_int((e.queued_anchor->0).1, f.diff))
        } else {
            p1
        };
        if is_overlay {
            (
                EngineView {
                    pending: Seq::empty(),
                    housed_anchor: Some(me),
                    queued_anchor: Some(me),
                    ..e
                },
                emitted(p2).push((with_status(row0, "housed"@), f.ts)),
            )
        } else if within(e.housed_anchor, f.ts, e.housed_timeout_ms) {
            (
                EngineView {
                    pending: p2.push((with_status(row0, "queued"@), f.ts, f.diff)),
                    queued_anchor: Some(me),
                    ..e
                },
                Seq::empty(),
            )
        } else {
            (
                EngineView {
                    pending: Seq::empty(),
                    housed_anchor: None,
                    queued_anchor: Some(me),
                    ..e
                },
                emitted(p2).push((with_status(row0, "queued"@), f.ts)),
            )
        }
    } else if within(e.housed_anchor, f.ts, e.housed_timeout_ms) || within(
        e.queued_anchor,
        f.ts,
        e.queued_timeout_ms,
    ) {
        (EngineView { pending: e.pending.push((row0, f.ts, f.diff)), ..e }, Seq::empty())
    } else {
        (
            EngineView { pending: Seq::empty(), housed_anchor: None, queued_anchor: None, ..e },
            emitted(e.pending).push((row0, f.ts)),
        )
    }
}

pub open spec fn pending_view(f: CapturedFrame) -> PendingView {
    (f.row_data@, f.timestamp_ms, f.pop_max - f.pop_curr)
}

pub open spec fn out_view(o: (Results, u64)) -> (Map<ResultKey, Seq<char>>, u64) {
    (o.0@, o.1)
}

pub open spec fn anchor_ts_le(a: Option<AnchorView>, ts: u64) -> bool {
    match a {
        Some(x) => x.0 <= ts,
        None => true,
    }
}

pub struct InterpolationEngine {
    housed_timeout_ms: u64,
    queued_timeout_ms: u64,
    pending_buffer: Vec<CapturedFrame>,
    last_housed_anchor: Option<(u64, i64)>,
    last_queued_anchor: Option<(u64, i64)>,
}

pub open spec fn anchor_view(a: Option<(u64, i64)>) -> Option<AnchorView> {
    match a {
        Some(x) => Some((x.0, x.1 as int)),
        None => None,
    }
}

impl View for InterpolationEngine {
    type V = EngineView;

    closed spec fn view(&self) -> EngineView {
        EngineView {
            housed_timeout_ms: self.housed_timeout_ms,
            queued_timeout_ms: self.queued_timeout_ms,
            pending: self.pending_buffer@.map_values(|f: CapturedFrame| pending_view(f)),
            housed_anchor: anchor_view(self.last_housed_anchor),
            queued_anchor: anchor_view(self.last_queued_anchor),
        }
    }
}

impl InterpolationEngine {
    /// Whether the engine can take a frame stamped `ts`: no anchor lies after it.
    pub open spec fn accepts(&self, ts: u64) -> bool {
        anchor_ts_le(self@.housed_anchor, ts) && anchor_ts_le(self@.queued_anchor, ts)
    }

    pub fn new() -> (e: InterpolationEngine)
        ensures
            e@.housed_timeout_ms == crate::constants::HOUSED_INTERPOLATION_TIMEOUT_MS,
            e@.queued_timeout_ms == crate::constants::QUEUED_INTERPOLATION_TIMEOUT_MS,
            e@.pending.len() == 0,
            e@.housed_anchor is None,
            e@.queued_anchor is None,
    {
        let e = InterpolationEngine {
            housed_timeout_ms: crate::constants::HOUSED_INTERPOLATION_TIMEOUT_MS,
            queued_timeout_ms: crate::constants::QUEUED_INTERPOLATION_TIMEOUT_MS,
            pending_buffer: Vec::new(),
            last_housed_anchor: None,
            last_queued_anchor: None,
        };
        assert(e@.pending =~= Seq::<PendingView>::empty());
        e
    }

    /// Whether a frame stamped `ts` can be processed (see `accepts`).
    pub fn can_accept(&self, ts: u64) -> (b: bool)
        ensures
            b == self.accepts(ts),
    {
        let h = match self.last_housed_anchor {
            Some(a) => a.0 <= ts,
            None => true,
        };
        let q = match self.last_queued_anchor {
            Some(a) => a.0 <= ts,
            None => true,
        };
        h && q
    }

    fn housed_active(&self, ts: u64) -> (b: bool)
        requires
            self.accepts(ts),
        ensures
            b == within(self@.housed_anchor, ts, self@.housed_timeout_ms),
    {
        match self.last_housed_anchor {
            Some(a) => ts - a.0 <= self.housed_timeout_ms,
            None => false,
        }
    }

    fn queued_active(&self, ts: u64) -> (b: bool)
        requires
            self.accepts(ts),
        ensures
            b == within(self@.queued_anchor, ts, self@.queued_timeout_ms),
    {
        match self.last_queued_anchor {
            Some(a) => ts - a.0 <= self.queued_timeout_ms,
            None => false,
        }
    }

    /// Marks held-back frames with free population at most `max_diff` as "housed"
    /// (`queued_only`: only those still "normal", as "queued").
    fn mark_pending(&mut self, max_diff: i64, queued_only: bool)
        ensures
            final(self)@ == (EngineView {
                pending: if queued_only {
                    bridge_queued(old(self)@.pending, max_diff as int)
                } else {
                    bridge_housed(old(self)@.pending, max_diff as int)
                },
                ..old(self)@
            }),
    {
        let mut rest: Vec<CapturedFrame> = Vec::new();
        std::mem::swap(&mut rest, &mut self.pending_buffer);
        let ghost orig = rest@;
        let ghost target = if queued_only {
            bridge_queued(orig.map_values(|f: CapturedFrame| pending_view(f)), max_diff as int)
        } else {
            bridge_housed(orig.map_values(|f: CapturedFrame| pending_view(f)), max_diff as int)
        };
        let mut done: Vec<CapturedFrame> = Vec::new();
        while rest.len() > 0
            invariant
                done@.len() + rest@.len() == orig.len(),
                rest@ == orig.skip(done@.len() as int),
                target.len() == orig.len(),
                target == if queued_only {
                    bridge_queued(orig.map_values(|f: CapturedFrame| pending_view(f)), max_diff as int)
                } else {
                    bridge_housed(orig.map_values(|f: CapturedFrame| pending_view(f)), max_diff as int)
                },
                done@.map_values(|f: CapturedFrame| pending_view(f)) == target.take(done@.len() as int),
            decreases rest@.len(),
        {
            let ghost k = done@.len() as int;
            let mut f = rest.remove(0);
            assert(f == orig[k]);
            let d = f.pop_diff();
            if queued_only {
                let st = get_housing_status(&f.row_data);
                if str_eq(st.as_str(), "normal") && d <= max_diff {
                    set_housing_status(&mut f.row_data, "queued");
                }
            } else {
                if d <= max_diff {
                    set_housing_status(&mut f.row_data, "housed");
                }
            }
            let ghost before = done@;
            done.push(f);
            assert(rest@ =~= orig.skip(done@.len() as int));
            assert(done@.map_values(|f: CapturedFrame| pending_view(f)) =~= target.take(done@.len() as int)) by {
                assert(done@ == before.push(f));
                assert(target[k] == pending_view(f));
            }
        }
        assert(done@.map_values(|f: CapturedFrame| pending_view(f)) =~= target);
        self.pending_buffer = done;
    }

    /// Releases all held-back frames, oldest first, followed by `last`.
    fn release(&mut self, last: (Results, u64)) -> (out: Vec<(Results, u64)>)
        ensures
            final(self)@ == (EngineView { pending: Seq::empty(), ..old(self)@ }),
            out@.map_values(|o: (Results, u64)| out_view(o)) == emitted(old(self)@.pending).push(out_view(last)),
    {
        let mut out = self.drain();
        let ghost before = out@;
        out.push(last);
        assert(out@.map_values(|o: (Results, u64)| out_view(o)) =~= before.map_values(|o: (Results, u64)| out_view(o)).push(out_view(last)));
        out
    }

    fn drain(&mut self) -> (out: Vec<(Results, u64)>)
        ensures
            final(self)@ == (EngineView { pending: Seq::empty(), ..old(self)@ }),
            out@.map_values(|o: (Results, u64)| out_view(o)) == emitted(old(self)@.pending),
    {
        let mut rest: Vec<CapturedFrame> = Vec::new();
        std::mem::swap(&mut rest, &mut self.pending_buffer);
        let ghost orig = rest@;
        let mut out: Vec<(Results, u64)> = Vec::new();
        while rest.len() > 0
            invariant
                out@.len() + rest@.len() == orig.len(),
                rest@ == orig.skip(out@.len() as int),
                out@.map_values(|o: (Results, u64)| out_view(o)) == emitted(orig.map_values(|f: CapturedFrame| pending_view(f))).take(out@.len() as int),
            decreases rest@.len(),
        {
            let ghost k = out@.len() as int;
            let f = rest.remove(0);
            assert(f == orig[k]);
            let ghost before = out@;
            out.push((f.row_data, f.timestamp_ms));
            assert(rest@ =~= orig.skip(out@.len() as int));
            assert(out@.map_values(|o: (Results, u64)| out_view(o)) =~= emitted(orig.map_values(|f: CapturedFrame| pending_view(f))).take(out@.len() as int)) by {
                assert(out@ == before.push(out@.last()));
            }
        }
        assert(out@.map_values(|o: (Results, u64)| out_view(o)) =~= emitted(orig.map_values(|f: CapturedFrame| pending_view(f))));
        assert(self.pending_buffer@.map_values(|f: CapturedFrame| pending_view(f)) =~= Seq::<PendingView>::empty());
        out
    }

    /// Takes one frame; returns the rows (readings with their housing status, and
    /// timestamp) that this frame resolves, oldest first.
    pub fn process_frame(&mut self, frame: CapturedFrame) -> (out: Vec<(Results, u64)>)
        requires
            old(self).accepts(frame.timestamp_ms),
        ensures
            final(self)@ == process_spec(old(self)@, frame_view(frame)).0,
            out@.map_values(|o: (Results, u64)| out_view(o)) == process_spec(
                old(self)@,
                frame_view(frame),
            ).1,
    {
        let mut frame = frame;
        let ghost fv = frame_view(frame);
        let is_overlay = str_eq(frame.pop_color.as_str(), "overlay");
        let is_yellow = str_eq(frame.pop_color.as_str(), "yellow");
        let ts = frame.timestamp_ms;
        let diff = frame.pop_diff();
        set_housing_status(&mut frame.row_data, "normal");
        let ghost row0 = frame.row_data@;
        let ghost e0 = self@;

        if is_overlay || is_yellow {
            if is_overlay && self.housed_active(ts) {
                let a = match self.last_housed_anchor {
                    Some(a) => a.1,
                    None => 0,
                };
                let max_diff = if a >= diff {
                    a
                } else {
                    diff
                };
                self.mark_pending(max_diff, false);
            }
            let ghost e1 = self@;
            if self.queued_active(ts) {
                let a = match self.last_queued_anchor {
                    Some(a) => a.1,
                    None => 0,
                };
                let max_diff = if a >= diff {
                    a
                } else {
                    diff
                };
                self.mark_pending(max_diff, true);
            }
            if is_overlay {
                set_housing_status(&mut frame.row_data, "housed");
                let out = self.release((frame.row_data, ts));
                self.last_housed_anchor = Some((ts, diff));
                self.last_queued_anchor = Some((ts, diff));
                proof {
                    assert(self@.pending =~= Seq::<PendingView>::empty());
                }
                out
            } else if self.housed_active(ts) {
                set_housing_status(&mut frame.row_data, "queued");
                let ghost before = self.pending_buffer@;
                self.pending_buffer.push(frame);
                self.last_queued_anchor = Some((ts, diff));
                proof {
                    assert(self.pending_buffer@.map_values(|f: CapturedFrame| pending_view(f)) =~= before.map_values(|f: CapturedFrame| pending_view(f)).push(pending_view(frame)));
                }
                let out: Vec<(Results, u64)> = Vec::new();
                assert(out@.map_values(|o: (Results, u64)| out_view(o)) =~= Seq::<(Map<ResultKey, Seq<char>>, u64)>::empty());
                out
            } else {
                set_housing_status(&mut frame.row_data, "queued");
                let out = self.release((frame.row_data, ts));
                self.last_housed_anchor = None;
                self.last_queued_anchor = Some((ts, diff));
                proof {
                    assert(self@.pending =~= Seq::<PendingView>::empty());
                }
                out
            }
        } else {
            let h = self.housed_active(ts);
            let q = self.queued_active(ts);
            if h || q {
                let ghost before = self.pending_buffer@;
                self.pending_buffer.push(frame);
                proof {
                    assert(self.pending_buffer@.map_values(|f: CapturedFrame| pending_view(f)) =~= before.map_values(|f: CapturedFrame| pending_view(f)).push(pending_view(frame)));
                }
                let out: Vec<(Results, u64)> = Vec::new();
                assert(out@.map_values(|o: (Results, u64)| out_view(o)) =~= Seq::<(Map<ResultKey, Seq<char>>, u64)>::empty());
                out
            } else {
                let out = self.release((frame.row_data, ts));
                self.last_housed_anchor = None;
                self.last_queued_anchor = None;
                proof {
                    assert(self@.pending =~= Seq::<PendingView>::empty());
                }
                out
            }
        }
    }

    /// Releases every frame still held back, oldest first.
    pub fn flush(&mut self) -> (out: Vec<(Results, u64)>)
        ensures
            final(self)@ == (EngineView { pending: Seq::empty(), ..old(self)@ }),
            out@.map_values(|o: (Results, u64)| out_view(o)) == emitted(old(self)@.pending),
    {
        self.drain()
    }
}

pub open spec fn pending_ts(p: Seq<PendingView>) -> Seq<u64> {
    p.map_values(|x: PendingView| x.1)
}

pub open spec fn out_ts(o: Seq<(Map<ResultKey, Seq<char>>, u64)>) -> Seq<u64> {
    o.map_values(|x: (Map<ResultKey, Seq<char>>, u64)| x.1)
}

/// The engine run over a sequence of frames: the final state and every released row.
pub open spec fn run_spec(e: EngineView, fs: Seq<FrameView>) -> (EngineView, Seq<
    (Map<ResultKey, Seq<char>>, u64),
>)
    decreases fs.len(),
{
    if fs.len() == 0 {
        (e, Seq::empty())
    } else {
        let r = run_spec(e, fs.drop_last());
        let step = process_spec(r.0, fs.last());
        (step.0, r.1 + step.1)
    }
}

proof fn lemma_bridges_keep_ts(p: Seq<PendingView>, d: int)
    ensures
        pending_ts(bridge_housed(p, d)) == pending_ts(p),
        pending_ts(bridge_queued(p, d)) == pending_ts(p),
        out_ts(emitted(p)) == pending_ts(p),
{
    assert(pending_ts(bridge_housed(p, d)) =~= pending_ts(p));
    assert(pending_ts(bridge_queued(p, d)) =~= pending_ts(p));
    assert(out_ts(emitted(p)) =~= pending_ts(p));
}

/// One frame: the rows released, followed by the frames still held, are the frames held
/// before followed by the new one, in the same order.
pub proof fn law_frame_order_kept(e: EngineView, f: FrameView)
    ensures
        out_ts(process_spec(e, f).1) + pending_ts(process_spec(e, f).0.pending) == pending_ts(
            e.pending,
        ).push(f.ts),
{
    let r = process_spec(e, f);
    let d1 = max_int((e.housed_anchor->0).1, f.diff);
    let d2 = max_int((e.queued_anchor->0).1, f.diff);
    lemma_bridges_keep_ts(e.pending, d1);
    lemma_bridges_keep_ts(bridge_housed(e.pending, d1), d2);
    lemma_bridges_keep_ts(e.pending, d2);
    let p1 = if f.color == "overlay"@ && within(e.housed_anchor, f.ts, e.housed_timeout_ms) {
        bridge_housed(e.pending, d1)
    } else {
        e.pending
    };
    let p2 = if within(e.queued_anchor, f.ts, e.queued_timeout_ms) {
        bridge_queued(p1, d2)
    } else {
        p1
    };
    lemma_bridges_keep_ts(p1, d2);
    lemma_bridges_keep_ts(p2, d2);
    assert(pending_ts(p2) == pending_ts(e.pending));
    assert(out_ts(r.1) + pending_ts(r.0.pending) =~= pending_ts(e.pending).push(f.ts));
}

/// Over any run, every frame handed in is released exactly once and in arrival order:
/// the rows released so far followed by the frames still held are the frames held at
/// the start followed by all frames handed in. (`flush` then releases the held ones.)
pub proof fn law_run_releases_in_order(e: EngineView, fs: Seq<FrameView>)
    ensures
        out_ts(run_spec(e, fs).1) + pending_ts(run_spec(e, fs).0.pending) == pending_ts(e.pending)
            + fs.map_values(|f: FrameView| f.ts),
    decreases fs.len(),
{
    if fs.len() > 0 {
        law_run_releases_in_order(e, fs.drop_last());
        let r = run_spec(e, fs.drop_last());
        law_frame_order_kept(r.0, fs.last());
        let step = process_spec(r.0, fs.last());
        assert(out_ts(r.1 + step.1) =~= out_ts(r.1) + out_ts(step.1));
        let a = out_ts(r.1);
        let b = out_ts(step.1);
        let c = pending_ts(step.0.pending);
        assert(b + c == pending_ts(r.0.pending).push(fs.last().ts));
        assert((a + b) + c =~= a + (b + c));
        assert(a + pending_ts(r.0.pending).push(fs.last().ts) =~= (a + pending_ts(r.0.pending)).push(fs.last().ts));
        assert(fs.map_values(|f: FrameView| f.ts) =~= fs.drop_last().map_values(|f: FrameView| f.ts).push(fs.last().ts));
        assert((pending_ts(e.pending) + fs.drop_last().map_values(|f: FrameView| f.ts)).push(fs.last().ts) =~= pending_ts(e.pending)
            + fs.map_values(|f: FrameView| f.ts));
    } else {
        assert(out_ts(Seq::<(Map<ResultKey, Seq<char>>, u64)>::empty()) =~= Seq::<u64>::empty());
        assert(fs.map_values(|f: FrameView| f.ts) =~= Seq::<u64>::empty());
        assert(pending_ts(e.pending) + Seq::<u64>::empty() =~= pending_ts(e.pending));
        assert(Seq::<u64>::empty() + pending_ts(e.pending) =~= pending_ts(e.pending));
    }
}

/// A frame's readings without its housing status.
pub open spec fn without_status(m: Map<ResultKey, Seq<char>>) -> Map<ResultKey, Seq<char>> {
    m.remove(status_key())
}

/// Held frames by their readings (status aside) and timestamps.
pub open spec fn pending_rows(p: Seq<PendingView>) -> Seq<(Map<ResultKey, Seq<char>>, u64)> {
    p.map_values(|x: PendingView| (without_status(x.0), x.1))
}

/// Released rows by their readings (status aside) and timestamps.
pub open spec fn out_rows(o: Seq<(Map<ResultKey, Seq<char>>, u64)>) -> Seq<(Map<ResultKey, Seq<char>>, u64)> {
    o.map_values(|x: (Map<ResultKey, Seq<char>>, u64)| (without_status(x.0), x.1))
}

/// Frames handed in, by their readings (status aside) and timestamps.
pub open spec fn frame_rows(fs: Seq<FrameView>) -> Seq<(Map<ResultKey, Seq<char>>, u64)> {
    fs.map_values(|f: FrameView| (without_status(f.row), f.ts))
}

proof fn lemma_status_set_aside(m: Map<ResultKey, Seq<char>>, s: Seq<char>)
    ensures
        without_status(with_status(m, s)) == without_status(m),
{
    assert(without_status(with_status(m, s)) =~= without_status(m));
}

proof fn lemma_bridges_keep_rows(p: Seq<PendingView>, d: int)
    ensures
        pending_rows(bridge_housed(p, d)) == pending_rows(p),
        pending_rows(bridge_queued(p, d)) == pending_rows(p),
        out_rows(emitted(p)) == pending_rows(p),
{
    assert forall|k: int| 0 <= k < p.len() implies #[trigger] pending_rows(bridge_housed(p, d))[k] == pending_rows(p)[k] by {
        lemma_status_set_aside(p[k].0, "housed"@);
    }
    assert forall|k: int| 0 <= k < p.len() implies #[trigger] pending_rows(bridge_queued(p, d))[k] == pending_rows(p)[k] by {
        lemma_status_set_aside(p[k].0, "queued"@);
    }
    assert(pending_rows(bridge_housed(p, d)) =~= pending_rows(p));
    assert(pending_rows(bridge_queued(p, d)) =~= pending_rows(p));
    assert(out_rows(emitted(p)) =~= pending_rows(p));
}

/// One frame: the rows released, followed by the frames still held, are the frames held
/// before followed by the new one, each with the same readings apart from its housing
/// status, and the same timestamp.
pub proof fn law_frame_readings_kept(e: EngineView, f: FrameView)
    ensures
        out_rows(process_spec(e, f).1) + pending_rows(process_spec(e, f).0.pending)
            == pending_rows(e.pending).push((without_status(f.row), f.ts)),
{
    let r = process_spec(e, f);
    let d1 = max_int((e.housed_anchor->0).1, f.diff);
    let d2 = max_int((e.queued_anchor->0).1, f.diff);
    let p1 = if f.color == "overlay"@ && within(e.housed_anchor, f.ts, e.housed_timeout_ms) {
        bridge_housed(e.pending, d1)
    } else {
        e.pending
    };
    let p2 = if within(e.queued_anchor, f.ts, e.queued_timeout_ms) {
        bridge_queued(p1, d2)
    } else {
        p1
    };
    lemma_bridges_keep_rows(e.pending, d1);
    lemma_bridges_keep_rows(p1, d2);
    lemma_bridges_keep_rows(p2, d2);
    let row0 = with_status(f.row, "normal"@);
    lemma_status_set_aside(f.row, "normal"@);
    lemma_status_set_aside(row0, "queued"@);
    lemma_status_set_aside(row0, "housed"@);
    assert(pending_rows(p2) == pending_rows(e.pending));
    assert(out_rows(r.1) + pending_rows(r.0.pending) =~= pending_rows(e.pending).push((without_status(f.row), f.ts)));
}

/// Over any run, every frame handed in comes out exactly once, in arrival order, with its
/// readings and timestamp, only its housing status set: the rows released followed by
/// the frames still held (which `flush` releases as they are) are the frames held at the
/// start followed by all frames handed in.
pub proof fn law_run_keeps_readings(e: EngineView, fs: Seq<FrameView>)
    ensures
        out_rows(run_spec(e, fs).1) + pending_rows(run_spec(e, fs).0.pending) == pending_rows(e.pending)
            + frame_rows(fs),
        out_rows(run_spec(e, fs).1 + emitted(run_spec(e, fs).0.pending)) == pending_rows(e.pending)
            + frame_rows(fs),
    decreases fs.len(),
{
    if fs.len() > 0 {
        law_run_keeps_readings(e, fs.drop_last());
        let r = run_spec(e, fs.drop_last());
        law_frame_readings_kept(r.0, fs.last());
        let step = process_spec(r.0, fs.last());
        let last = (without_status(fs.last().row), fs.last().ts);
        assert(out_rows(r.1 + step.1) =~= out_rows(r.1) + out_rows(step.1));
        let a = out_rows(r.1);
        let b = out_rows(step.1);
        let c = pending_rows(step.0.pending);
        assert((a + b) + c =~= a + (b + c));
        assert(a + pending_rows(r.0.pending).push(last) =~= (a + pending_rows(r.0.pending)).push(last));
        assert(frame_rows(fs) =~= frame_rows(fs.drop_last()).push(last));
        assert((pending_rows(e.pending) + frame_rows(fs.drop_last())).push(last) =~= pending_rows(e.pending) + frame_rows(fs));
    } else {
        assert(out_rows(Seq::<(Map<ResultKey, Seq<char>>, u64)>::empty()) =~= Seq::empty());
        assert(frame_rows(fs) =~= Seq::empty());
        assert(pending_rows(e.pending) + Seq::empty() =~= pending_rows(e.pending));
        assert(Seq::empty() + pending_rows(e.pending) =~= pending_rows(e.pending));
    }
    let r = run_spec(e, fs);
    lemma_bridges_keep_rows(r.0.pending, 0);
    assert(out_rows(r.1 + emitted(r.0.pending)) =~= out_rows(r.1) + out_rows(emitted(r.0.pending)));
}

proof fn lemma_anchors_bounded(e: EngineView, fs: Seq<FrameView>, k: int)
    requires
        e.housed_anchor is None,
        e.queued_anchor is None,
        0 <= k <= fs.len(),
        forall|i: int, j: int| 0 <= i <= j < fs.len() ==> (#[trigger] fs[i]).ts <= (#[trigger] fs[j]).ts,
    ensures
        k == 0 ==> run_spec(e, fs.take(k)).0.housed_anchor is None && run_spec(e, fs.take(k)).0.queued_anchor is None,
        k > 0 ==> anchor_ts_le(run_spec(e, fs.take(k)).0.housed_anchor, fs[k - 1].ts)
            && anchor_ts_le(run_spec(e, fs.take(k)).0.queued_anchor, fs[k - 1].ts),
    decreases k,
{
    if k > 0 {
        lemma_anchors_bounded(e, fs, k - 1);
        assert(fs.take(k).drop_last() =~= fs.take(k - 1));
        assert(fs.take(k).last() == fs[k - 1]);
        if k > 1 {
            assert(fs[k - 2].ts <= fs[k - 1].ts);
        }
    } else {
        assert(fs.take(0) =~= Seq::<FrameView>::empty());
    }
}

/// Anchors are timestamps of frames already handed in: fed from a state without anchors
/// (as `new` gives) with timestamps that never decrease, every frame is accepted
/// (`accepts`, the condition of `process_frame`).
pub proof fn law_ordered_feed_accepted(e: EngineView, fs: Seq<FrameView>)
    requires
        e.housed_anchor is None,
        e.queued_anchor is None,
        forall|i: int, j: int| 0 <= i <= j < fs.len() ==> (#[trigger] fs[i]).ts <= (#[trigger] fs[j]).ts,
    ensures
        forall|k: int| 0 <= k < fs.len() ==> anchor_ts_le(#[trigger] run_spec(e, fs.take(k)).0.housed_anchor, fs[k].ts)
            && anchor_ts_le(run_spec(e, fs.take(k)).0.queued_anchor, fs[k].ts),
{
    assert forall|k: int| 0 <= k < fs.len() implies anchor_ts_le(#[trigger] run_spec(e, fs.take(k)).0.housed_anchor, fs[k].ts)
        && anchor_ts_le(run_spec(e, fs.take(k)).0.queued_anchor, fs[k].ts) by {
        lemma_anchors_bounded(e, fs, k);
        if k > 0 {
            assert(fs[k - 1].ts <= fs[k].ts);
        }
    }
}

/// No held frame is marked housed.
pub open spec fn none_held_housed(p: Seq<PendingView>) -> bool {
    forall|k: int| 0 <= k < p.len() ==> status_of(#[trigger] p[k].0) != "housed"@
}

/// How a released row comes to be housed. Held frames are never housed (as from `new`,
/// and this is kept). A frame handed in is released housed exactly when it carries the
/// housed overlay; a held frame is released housed exactly when an overlay frame arrives
/// within the housed timeout of the last overlay and the held frame's free population is
/// at most the larger of the two overlays'.
pub proof fn law_housed_rows(e: EngineView, f: FrameView)
    requires
        none_held_housed(e.pending),
    ensures
        none_held_housed(process_spec(e, f).0.pending),
        process_spec(e, f).1.len() > 0 ==> process_spec(e, f).1.len() == e.pending.len() + 1,
        process_spec(e, f).1.len() > 0 ==> (status_of(process_spec(e, f).1.last().0) == "housed"@ <==> f.color == "overlay"@),
        forall|k: int| 0 <= k < e.pending.len() && process_spec(e, f).1.len() > 0 ==> (status_of(
            #[trigger] process_spec(e, f).1[k].0,
        ) == "housed"@ <==> (f.color == "overlay"@ && within(e.housed_anchor, f.ts, e.housed_timeout_ms)
            && e.pending[k].2 <= max_int((e.housed_anchor->0).1, f.diff))),
{
    reveal_strlit("housed");
    reveal_strlit("queued");
    reveal_strlit("normal");
    assert("housed"@[0] == 'h' && "queued"@[0] == 'q' && "normal"@[0] == 'n');
    assert("housed"@ != "queued"@ && "housed"@ != "normal"@);
    let d1 = max_int((e.housed_anchor->0).1, f.diff);
    let d2 = max_int((e.queued_anchor->0).1, f.diff);
    let bridged = f.color == "overlay"@ && within(e.housed_anchor, f.ts, e.housed_timeout_ms);
    let p1 = if bridged { bridge_housed(e.pending, d1) } else { e.pending };
    let p2 = if within(e.queued_anchor, f.ts, e.queued_timeout_ms) { bridge_queued(p1, d2) } else { p1 };
    assert forall|k: int| 0 <= k < e.pending.len() implies (status_of(#[trigger] p2[k].0) == "housed"@ <==> (bridged
        && e.pending[k].2 <= d1)) by {
        assert(status_of(e.pending[k].0) != "housed"@);
        assert(status_of(with_status(e.pending[k].0, "housed"@)) == "housed"@);
        assert(status_of(with_status(p1[k].0, "queued"@)) == "queued"@);
        if bridged {
            assert(p1[k].2 == e.pending[k].2);
            if e.pending[k].2 <= d1 {
                assert(status_of(p1[k].0) == "housed"@);
            } else {
                assert(p1[k] == e.pending[k]);
            }
        } else {
            assert(p1[k] == e.pending[k]);
        }
        if within(e.queued_anchor, f.ts, e.queued_timeout_ms) {
            if status_of(p1[k].0) == "normal"@ && p1[k].2 <= d2 {
                assert(p2[k].0 == with_status(p1[k].0, "queued"@));
            } else {
                assert(p2[k] == p1[k]);
            }
        }
    }
    let row0 = with_status(f.row, "normal"@);
    assert(status_of(row0) == "normal"@);
    assert(status_of(with_status(row0, "queued"@)) == "queued"@);
    assert(status_of(with_status(row0, "housed"@)) == "housed"@);
    let r = process_spec(e, f);
    if f.color == "overlay"@ || f.color == "yellow"@ {
        assert forall|k: int| 0 <= k < e.pending.len() && r.1.len() > 0 implies #[trigger] r.1[k].0 == p2[k].0 by {}
        if f.color != "overlay"@ {
            assert(!bridged);
            assert forall|k: int| 0 <= k < r.0.pending.len() implies status_of(#[trigger] r.0.pending[k].0) != "housed"@ by {
                if k < p2.len() {
                    assert(r.0.pending[k] == p2[k]);
                }
            }
        }
    } else {
        assert forall|k: int| 0 <= k < e.pending.len() && r.1.len() > 0 implies #[trigger] r.1[k].0 == e.pending[k].0 by {}
        assert forall|k: int| 0 <= k < r.0.pending.len() implies status_of(#[trigger] r.0.pending[k].0) != "housed"@ by {
            if k < e.pending.len() {
                assert(r.0.pending[k] == e.pending[k]);
            }
        }
    }
}

pub open spec fn is_status(s: Seq<char>) -> bool {
    s == "normal"@ || s == "queued"@ || s == "housed"@
}

/// A frame with the housed overlay is released at once, marked "housed", after every
/// frame held before it (those, in order, with their readings); nothing stays held.
pub proof fn law_overlay_released_housed(e: EngineView, f: FrameView)
    requires
        f.color == "overlay"@,
    ensures
        process_spec(e, f).0.pending.len() == 0,
        process_spec(e, f).1.len() == e.pending.len() + 1,
        status_of(process_spec(e, f).1.last().0) == "housed"@,
        process_spec(e, f).1.last().1 == f.ts,
        out_rows(process_spec(e, f).1.drop_last()) == pending_rows(e.pending),
{
    law_frame_readings_kept(e, f);
    let o = process_spec(e, f).1;
    assert(out_rows(o) + pending_rows(process_spec(e, f).0.pending) =~= out_rows(o));
    assert(out_rows(o.drop_last()) =~= out_rows(o).drop_last());
}

/// A frame without any anchor signal, outside both bridging windows, breaks any bridge:
/// it is released at once as "normal" after the held frames, and the anchors are dropped.
pub proof fn law_plain_frame_breaks_bridges(e: EngineView, f: FrameView)
    requires
        f.color != "overlay"@,
        f.color != "yellow"@,
        !within(e.housed_anchor, f.ts, e.housed_timeout_ms),
        !within(e.queued_anchor, f.ts, e.queued_timeout_ms),
    ensures
        process_spec(e, f).0.pending.len() == 0,
        process_spec(e, f).0.housed_anchor is None,
        process_spec(e, f).0.queued_anchor is None,
        process_spec(e, f).1 == emitted(e.pending).push((with_status(f.row, "normal"@), f.ts)),
{
}

/// Every row the engine releases carries one of the three housing statuses, provided the
/// frames it holds do (as they do from `new`).
pub proof fn law_statuses_are_known(e: EngineView, f: FrameView)
    requires
        forall|k: int| 0 <= k < e.pending.len() ==> is_status(status_of(#[trigger] e.pending[k].0)),
    ensures
        forall|k: int|
            0 <= k < process_spec(e, f).0.pending.len() ==> is_status(
                status_of(#[trigger] process_spec(e, f).0.pending[k].0),
            ),
        forall|k: int|
            0 <= k < process_spec(e, f).1.len() ==> is_status(
                status_of(#[trigger] process_spec(e, f).1[k].0),
            ),
{
    let d1 = max_int((e.housed_anchor->0).1, f.diff);
    let d2 = max_int((e.queued_anchor->0).1, f.diff);
    let p1 = if f.color == "overlay"@ && within(e.housed_anchor, f.ts, e.housed_timeout_ms) {
        bridge_housed(e.pending, d1)
    } else {
        e.pending
    };
    assert forall|k: int| 0 <= k < p1.len() implies is_status(status_of(#[trigger] p1[k].0)) by {
        if f.color == "overlay"@ && within(e.housed_anchor, f.ts, e.housed_timeout_ms) {
            assert(status_of(with_status(e.pending[k].0, "housed"@)) == "housed"@);
        }
    }
    let p2 = if within(e.queued_anchor, f.ts, e.queued_timeout_ms) {
        bridge_queued(p1, d2)
    } else {
        p1
    };
    assert forall|k: int| 0 <= k < p2.len() implies is_status(status_of(#[trigger] p2[k].0)) by {
        if within(e.queued_anchor, f.ts, e.queued_timeout_ms) {
            assert(status_of(with_status(p1[k].0, "queued"@)) == "queued"@);
        }
    }
    let row0 = with_status(f.row, "normal"@);
    assert(status_of(row0) == "normal"@);
    assert(status_of(with_status(row0, "queued"@)) == "queued"@);
    assert(status_of(with_status(row0, "housed"@)) == "housed"@);
    let r = process_spec(e, f);
    assert forall|k: int| 0 <= k < r.1.len() implies is_status(status_of(#[trigger] r.1[k].0)) by {
        if k < r.1.len() - 1 {
            if f.color == "overlay"@ || f.color == "yellow"@ {
                assert(r.1[k].0 == p2[k].0);
            } else {
                assert(r.1[k].0 == e.pending[k].0);
            }
        }
    }
    assert forall|k: int| 0 <= k < r.0.pending.len() implies is_status(status_of(#[trigger] r.0.pending[k].0)) by {
        if k < r.0.pending.len() - 1 {
            if f.color == "overlay"@ || f.color == "yellow"@ {
                assert(r.0.pending[k] == p2[k]);
            } else {
                assert(r.0.pending[k] == e.pending[k]);
            }
        }
    }
}

} // verus!
