//! The decisions of the live preview loop: which source pump is installed,
//! when it is primed, advanced or re-seeked, which position updates and
//! liveness transitions are reported.
//!
//! The loop itself (draining commands, rendering on the GPU, sending events)
//! belongs to the caller: it asks this controller what to do, does it, and
//! forwards what the controller reports.

use vstd::prelude::*;
use crate::frame::{FrameHeader, header_bytes};
use crate::frame_source::{write_solid_frame, solid_fn};
use crate::raster::raster;
use crate::source::{Frame, FramePump, StillImage, TestPattern, TestPatternPump, PngSequencePump,
    pattern_dims_ok, at_least_one, pattern_len};

verus! {

/// What a source-pump load installs: a still image, a procedural test pattern
/// at a size, or a PNG sequence whose frames were already decoded.
pub enum SourceSpec {
    /// A single still image, presented forever (a one-frame pump).
    StillImage(Frame),
    /// A built-in test pattern at `width × height` (each clamped to at least 1).
    TestPattern { pattern: TestPattern, width: u32, height: u32 },
    /// Decoded frames, presented in order and looping.
    PngSequence(Vec<Frame>),
}

/// A position update: the pump's new frame `index` in `0..len`.
#[derive(Debug, Clone, Copy, PartialEq, Eq, Structural)]
pub struct PositionUpdate {
    pub index: usize,
    pub len: usize,
}

/// The engine's liveness state.
#[derive(Debug, Clone, Copy, PartialEq, Eq, Structural)]
pub enum EngineStatus {
    /// A fresh frame was rendered this tick.
    Live,
    /// The latest render produced no fresh frame; the last good one is held.
    LastGood,
    /// The render thread has stopped.
    Stopped,
}

/// An engine event: a liveness transition or a render error (a short stable
/// `code` and a human-readable `message`).
#[derive(Debug, Clone, PartialEq, Eq)]
pub enum EngineEvent {
    Status(EngineStatus),
    Error { code: String, message: String },
}

/// A live source pump: one of the three kinds a [`SourceSpec`] builds.
pub enum SourcePump {
    Still(StillImage),
    Pattern(TestPatternPump),
    Sequence(PngSequencePump),
}

impl FramePump for SourcePump {
    open spec fn frame_count(&self) -> nat {
        match self {
            SourcePump::Still(p) => p.frame_count(),
            SourcePump::Pattern(p) => p.frame_count(),
            SourcePump::Sequence(p) => p.frame_count(),
        }
    }

    open spec fn frame_index(&self) -> nat {
        match self {
            SourcePump::Still(p) => p.frame_index(),
            SourcePump::Pattern(p) => p.frame_index(),
            SourcePump::Sequence(p) => p.frame_index(),
        }
    }

    open spec fn frame_at(&self, i: nat) -> (u32, u32, Seq<u8>) {
        match self {
            SourcePump::Still(p) => p.frame_at(i),
            SourcePump::Pattern(p) => p.frame_at(i),
            SourcePump::Sequence(p) => p.frame_at(i),
        }
    }

    open spec fn pump_wf(&self) -> bool {
        match self {
            SourcePump::Still(p) => p.pump_wf(),
            SourcePump::Pattern(p) => p.pump_wf(),
            SourcePump::Sequence(p) => p.pump_wf(),
        }
    }

    fn current(&self) -> (f: &Frame) {
        match self {
            SourcePump::Still(p) => p.current(),
            SourcePump::Pattern(p) => p.current(),
            SourcePump::Sequence(p) => p.current(),
        }
    }

    fn advance(&mut self) {
        match self {
            SourcePump::Still(p) => p.advance(),
            SourcePump::Pattern(p) => p.advance(),
            SourcePump::Sequence(p) => p.advance(),
        }
    }

    fn seek(&mut self, index: usize) {
        match self {
            SourcePump::Still(p) => p.seek(index),
            SourcePump::Pattern(p) => p.seek(index),
            SourcePump::Sequence(p) => p.seek(index),
        }
    }

    fn position(&self) -> (p: usize) {
        match self {
            SourcePump::Still(p) => p.position(),
            SourcePump::Pattern(p) => p.position(),
            SourcePump::Sequence(p) => p.position(),
        }
    }

    fn len(&self) -> (n: usize) {
        match self {
            SourcePump::Still(p) => p.len(),
            SourcePump::Pattern(p) => p.len(),
            SourcePump::Sequence(p) => p.len(),
        }
    }
}

/// Whether a [`SourceSpec`] can be built: a test pattern's (clamped) size must
/// keep its pixel arithmetic in range, and a sequence needs a frame.
pub open spec fn spec_buildable(spec: &SourceSpec) -> bool {
    match spec {
        SourceSpec::StillImage(_) => true,
        SourceSpec::TestPattern { pattern, width, height } =>
            pattern_dims_ok(at_least_one(*width), at_least_one(*height)),
        SourceSpec::PngSequence(frames) => frames@.len() >= 1,
    }
}

/// The pump a [`SourceSpec`] builds has the frames the spec describes, and
/// starts at frame 0.
pub open spec fn built_from(p: SourcePump, spec: SourceSpec) -> bool {
    &&& p.pump_wf()
    &&& p.frame_index() == 0
    &&& match spec {
        SourceSpec::StillImage(f) => p.frame_count() == 1 && p.frame_at(0) == f@,
        SourceSpec::TestPattern { pattern, width, height } =>
            p matches SourcePump::Pattern(tp) && tp.spec_pattern() == pattern
                && tp.spec_size() == (at_least_one(width), at_least_one(height))
                && p.frame_count() == pattern_len(pattern),
        SourceSpec::PngSequence(frames) => p.frame_count() == frames@.len()
            && forall|i: nat| i < frames@.len() ==> #[trigger] p.frame_at(i) == frames@[i as int]@,
    }
}

/// Turn a [`SourceSpec`] (decoding already done) into a live pump.
pub fn build_pump(spec: SourceSpec) -> (p: SourcePump)
    requires
        spec_buildable(&spec),
    ensures
        built_from(p, spec),
{
    match spec {
        SourceSpec::StillImage(frame) => SourcePump::Still(StillImage::new(frame)),
        SourceSpec::TestPattern { pattern, width, height } =>
            SourcePump::Pattern(TestPatternPump::new(pattern, width, height)),
        SourceSpec::PngSequence(frames) => SourcePump::Sequence(PngSequencePump::from_frames(frames)),
    }
}

/// What the renderer must do with the source after a controller call.
#[derive(Debug, Clone, Copy, PartialEq, Eq, Structural)]
pub enum SourceAction {
    /// Nothing changes.
    Nothing,
    /// Upload the pump's current frame as a fresh `Original` (history reset).
    SetSource,
    /// Upload the pump's current frame as the next `Original` (history rotates).
    AdvanceSource,
    /// Upload the current frame as a fresh `Original` and clear feedback (a
    /// seek is a discontinuity).
    Reseek,
}

/// The outcome of a pacing call: the renderer action and the position update
/// to send, if any.
#[derive(Debug, Clone, Copy, PartialEq, Eq, Structural)]
pub struct PumpStep {
    pub action: SourceAction,
    pub position: Option<PositionUpdate>,
}

/// The pump-driving state of the preview loop.
pub struct PumpController {
    pump: Option<SourcePump>,
    playing: bool,
    period: u32,
    tick: u32,
    primed: bool,
    have_shader: bool,
    last_position: Option<usize>,
    last_status: Option<EngineStatus>,
}

impl PumpController {
    /// The installed pump.
    pub closed spec fn spec_pump(&self) -> Option<SourcePump> {
        self.pump
    }

    /// Whether the pump is advancing.
    pub closed spec fn spec_playing(&self) -> bool {
        self.playing
    }

    /// Render ticks between advances while playing.
    pub closed spec fn spec_period(&self) -> u32 {
        self.period
    }

    /// Render ticks counted since the last advance.
    pub closed spec fn spec_tick(&self) -> u32 {
        self.tick
    }

    /// Whether the pump's current frame has been uploaded since it was installed.
    pub closed spec fn spec_primed(&self) -> bool {
        self.primed
    }

    /// Whether a shader is loaded.
    pub closed spec fn spec_have_shader(&self) -> bool {
        self.have_shader
    }

    /// The last position reported.
    pub closed spec fn spec_last_position(&self) -> Option<usize> {
        self.last_position
    }

    /// The last liveness status reported.
    pub closed spec fn spec_last_status(&self) -> Option<EngineStatus> {
        self.last_status
    }

    /// The controller's invariant: a period of at least one tick, a tick count
    /// below it, and a well-formed pump.
    pub closed spec fn wf(&self) -> bool {
        &&& self.period >= 1
        &&& self.tick < self.period
        &&& match self.pump {
            Some(p) => p.pump_wf(),
            None => true,
        }
    }

    /// A controller with no pump and no shader, paused, advancing once per
    /// tick when played.
    pub fn new() -> (c: PumpController)
        ensures
            c.wf(),
            c.spec_pump() is None,
            !c.spec_playing(),
            c.spec_period() == 1,
            c.spec_tick() == 0,
            !c.spec_primed(),
            !c.spec_have_shader(),
            c.spec_last_position() is None,
            c.spec_last_status() is None,
    {
        PumpController {
            pump: None,
            playing: false,
            period: 1,
            tick: 0,
            primed: false,
            have_shader: false,
            last_position: None,
            last_status: None,
        }
    }

    /// Whether a real render can run: a source pump and a shader are loaded.
    pub fn ready(&self) -> (r: bool)
        ensures
            r == (self.spec_pump() is Some && self.spec_have_shader()),
    {
        self.pump.is_some() && self.have_shader
    }

    /// Record that a shader (or chain) was loaded.
    pub fn set_have_shader(&mut self)
        ensures
            final(self).spec_have_shader(),
            final(self).spec_pump() == old(self).spec_pump(),
            final(self).spec_playing() == old(self).spec_playing(),
            final(self).spec_period() == old(self).spec_period(),
            final(self).spec_tick() == old(self).spec_tick(),
            final(self).spec_primed() == old(self).spec_primed(),
            final(self).spec_last_position() == old(self).spec_last_position(),
            final(self).spec_last_status() == old(self).spec_last_status(),
            old(self).wf() ==> final(self).wf(),
    {
        self.have_shader = true;
    }

    /// The pump's current frame, when a pump is installed.
    pub fn current_frame(&self) -> (f: Option<&Frame>)
        requires
            self.wf(),
        ensures
            match self.spec_pump() {
                Some(p) => f matches Some(fr) && fr@ == p.frame_at(p.frame_index()),
                None => f is None,
            },
    {
        match &self.pump {
            Some(p) => Some(p.current()),
            None => None,
        }
    }

    /// Install a new pump: it replaces any current one and starts paused at
    /// frame 0, unprimed, with the pacing window and the reported position
    /// reset.
    pub fn install(&mut self, spec: SourceSpec)
        requires
            old(self).wf(),
            spec_buildable(&spec),
        ensures
            final(self).wf(),
            final(self).spec_pump() matches Some(p) && built_from(p, spec),
            !final(self).spec_playing(),
            !final(self).spec_primed(),
            final(self).spec_tick() == 0,
            final(self).spec_period() == old(self).spec_period(),
            final(self).spec_have_shader() == old(self).spec_have_shader(),
            final(self).spec_last_position() is None,
            final(self).spec_last_status() == old(self).spec_last_status(),
    {
        self.pump = Some(build_pump(spec));
        self.primed = false;
        self.playing = false;
        self.tick = 0;
        self.last_position = None;
    }

    /// Start advancing; the pacing window restarts so the first advance is a
    /// full period away.
    pub fn play(&mut self)
        requires
            old(self).wf(),
        ensures
            final(self).wf(),
            final(self).spec_playing(),
            final(self).spec_tick() == 0,
            final(self).spec_pump() == old(self).spec_pump(),
            final(self).spec_period() == old(self).spec_period(),
            final(self).spec_primed() == old(self).spec_primed(),
            final(self).spec_have_shader() == old(self).spec_have_shader(),
            final(self).spec_last_position() == old(self).spec_last_position(),
            final(self).spec_last_status() == old(self).spec_last_status(),
    {
        self.playing = true;
        self.tick = 0;
    }

    /// Stop advancing (hold the current frame).
    pub fn pause(&mut self)
        requires
            old(self).wf(),
        ensures
            final(self).wf(),
            !final(self).spec_playing(),
            final(self).spec_tick() == old(self).spec_tick(),
            final(self).spec_pump() == old(self).spec_pump(),
            final(self).spec_period() == old(self).spec_period(),
            final(self).spec_primed() == old(self).spec_primed(),
            final(self).spec_have_shader() == old(self).spec_have_shader(),
            final(self).spec_last_position() == old(self).spec_last_position(),
            final(self).spec_last_status() == old(self).spec_last_status(),
    {
        self.playing = false;
    }

    /// Set the number of render ticks between advances (at least 1); the
    /// pacing window restarts.
    pub fn set_advance_period(&mut self, ticks: u32)
        requires
            old(self).wf(),
            ticks >= 1,
        ensures
            final(self).wf(),
            final(self).spec_period() == ticks,
            final(self).spec_tick() == 0,
            final(self).spec_pump() == old(self).spec_pump(),
            final(self).spec_playing() == old(self).spec_playing(),
            final(self).spec_primed() == old(self).spec_primed(),
            final(self).spec_have_shader() == old(self).spec_have_shader(),
            final(self).spec_last_position() == old(self).spec_last_position(),
            final(self).spec_last_status() == old(self).spec_last_status(),
    {
        self.period = ticks;
        self.tick = 0;
    }

    /// The position update for the pump's current position, unless that
    /// position was the last one reported.
    fn report_position(&mut self) -> (u: Option<PositionUpdate>)
        requires
            old(self).wf(),
            old(self).spec_pump() is Some,
        ensures
            final(self).wf(),
            final(self).pump == old(self).pump,
            final(self).playing == old(self).playing,
            final(self).period == old(self).period,
            final(self).tick == old(self).tick,
            final(self).primed == old(self).primed,
            final(self).have_shader == old(self).have_shader,
            final(self).last_status == old(self).last_status,
            ({
                let p = old(self).pump->0;
                &&& final(self).last_position == Some(p.frame_index() as usize)
                &&& u == if old(self).last_position == Some(p.frame_index() as usize) {
                        None
                    } else {
                        Some(PositionUpdate { index: p.frame_index() as usize, len: p.frame_count() as usize })
                    }
            }),
    {
        let (index, len) = match &self.pump {
            Some(p) => (p.position(), p.len()),
            None => (0, 1),
        };
        let same = match self.last_position {
            Some(last) => last == index,
            None => false,
        };
        if same {
            return None;
        }
        self.last_position = Some(index);
        Some(PositionUpdate { index, len })
    }

    /// Advance exactly one source frame even when paused. An unprimed pump is
    /// primed instead (its current frame uploaded fresh); a one-frame pump only
    /// ever primes. Reports the position when it changed.
    pub fn step(&mut self) -> (s: PumpStep)
        requires
            old(self).wf(),
        ensures
            final(self).wf(),
            final(self).spec_playing() == old(self).spec_playing(),
            final(self).spec_period() == old(self).spec_period(),
            final(self).spec_tick() == old(self).spec_tick(),
            final(self).spec_have_shader() == old(self).spec_have_shader(),
            final(self).spec_last_status() == old(self).spec_last_status(),
            match old(self).spec_pump() {
                None => final(self).spec_pump() is None && s == PumpStep { action: SourceAction::Nothing, position: None }
                    && final(self).spec_primed() == old(self).spec_primed()
                    && final(self).spec_last_position() == old(self).spec_last_position(),
                Some(p) => final(self).spec_pump() matches Some(q) && final(self).spec_primed()
                    && q.frame_count() == p.frame_count()
                    && (forall|i: nat| #[trigger] q.frame_at(i) == p.frame_at(i))
                    && if old(self).spec_primed() && p.frame_count() > 1 {
                        q.frame_index() == (p.frame_index() + 1) % p.frame_count()
                            && s.action == SourceAction::AdvanceSource
                            && reported(s.position, old(self).spec_last_position(), final(self).spec_last_position(), q)
                    } else if !old(self).spec_primed() {
                        q.frame_index() == p.frame_index() && s.action == SourceAction::SetSource
                            && reported(s.position, old(self).spec_last_position(), final(self).spec_last_position(), q)
                    } else {
                        q.frame_index() == p.frame_index() && s == PumpStep { action: SourceAction::Nothing, position: None }
                            && final(self).spec_last_position() == old(self).spec_last_position()
                    },
            },
    {
        if self.pump.is_none() {
            return PumpStep { action: SourceAction::Nothing, position: None };
        }
        let len = match &self.pump { Some(p) => p.len(), None => 1 };
        if len <= 1 {
            if !self.primed {
                self.primed = true;
                let position = self.report_position();
                return PumpStep { action: SourceAction::SetSource, position };
            }
            return PumpStep { action: SourceAction::Nothing, position: None };
        }
        let action = if !self.primed {
            self.primed = true;
            SourceAction::SetSource
        } else {
            match &mut self.pump {
                Some(p) => p.advance(),
                None => {},
            }
            SourceAction::AdvanceSource
        };
        let position = self.report_position();
        PumpStep { action, position }
    }

    /// Seek the pump to `index` (modulo its length): the new frame is uploaded
    /// fresh and feedback cleared. Reports the position when it changed.
    pub fn seek(&mut self, index: usize) -> (s: PumpStep)
        requires
            old(self).wf(),
        ensures
            final(self).wf(),
            final(self).spec_playing() == old(self).spec_playing(),
            final(self).spec_period() == old(self).spec_period(),
            final(self).spec_tick() == old(self).spec_tick(),
            final(self).spec_have_shader() == old(self).spec_have_shader(),
            final(self).spec_last_status() == old(self).spec_last_status(),
            match old(self).spec_pump() {
                None => final(self).spec_pump() is None && s == PumpStep { action: SourceAction::Nothing, position: None }
                    && final(self).spec_primed() == old(self).spec_primed()
                    && final(self).spec_last_position() == old(self).spec_last_position(),
                Some(p) => final(self).spec_pump() matches Some(q) && final(self).spec_primed()
                    && q.frame_count() == p.frame_count()
                    && (forall|i: nat| #[trigger] q.frame_at(i) == p.frame_at(i))
                    && q.frame_index() == index as nat % p.frame_count()
                    && s.action == SourceAction::Reseek
                    && reported(s.position, old(self).spec_last_position(), final(self).spec_last_position(), q),
            },
    {
        if self.pump.is_none() {
            return PumpStep { action: SourceAction::Nothing, position: None };
        }
        match &mut self.pump {
            Some(p) => p.seek(index),
            None => {},
        }
        self.primed = true;
        let position = self.report_position();
        PumpStep { action: SourceAction::Reseek, position }
    }

    /// Per-render pacing: the first render after an install primes the pump
    /// (uploads its frame fresh); afterwards, while playing a multi-frame pump,
    /// every `period`-th render tick advances it one frame.
    pub fn pace(&mut self) -> (s: PumpStep)
        requires
            old(self).wf(),
        ensures
            final(self).wf(),
            final(self).spec_playing() == old(self).spec_playing(),
            final(self).spec_period() == old(self).spec_period(),
            final(self).spec_have_shader() == old(self).spec_have_shader(),
            final(self).spec_last_status() == old(self).spec_last_status(),
            match old(self).spec_pump() {
                None => final(self).spec_pump() is None && s == PumpStep { action: SourceAction::Nothing, position: None }
                    && final(self).spec_primed() == old(self).spec_primed()
                    && final(self).spec_tick() == old(self).spec_tick()
                    && final(self).spec_last_position() == old(self).spec_last_position(),
                Some(p) => final(self).spec_pump() matches Some(q) && final(self).spec_primed()
                    && q.frame_count() == p.frame_count()
                    && (forall|i: nat| #[trigger] q.frame_at(i) == p.frame_at(i))
                    && if !old(self).spec_primed() {
                        q.frame_index() == p.frame_index() && s.action == SourceAction::SetSource
                            && final(self).spec_tick() == old(self).spec_tick()
                            && reported(s.position, old(self).spec_last_position(), final(self).spec_last_position(), q)
                    } else if old(self).spec_playing() && p.frame_count() > 1
                        && old(self).spec_tick() + 1 >= old(self).spec_period() {
                        q.frame_index() == (p.frame_index() + 1) % p.frame_count()
                            && s.action == SourceAction::AdvanceSource
                            && final(self).spec_tick() == 0
                            && reported(s.position, old(self).spec_last_position(), final(self).spec_last_position(), q)
                    } else {
                        q.frame_index() == p.frame_index() && s == PumpStep { action: SourceAction::Nothing, position: None }
                            && final(self).spec_last_position() == old(self).spec_last_position()
                            && final(self).spec_tick() == if old(self).spec_playing() && p.frame_count() > 1 {
                                (old(self).spec_tick() + 1) as u32
                            } else {
                                old(self).spec_tick()
                            }
                    },
            },
    {
        if self.pump.is_none() {
            return PumpStep { action: SourceAction::Nothing, position: None };
        }
        if !self.primed {
            self.primed = true;
            let position = self.report_position();
            return PumpStep { action: SourceAction::SetSource, position };
        }
        let len = match &self.pump { Some(p) => p.len(), None => 1 };
        if self.playing && len > 1 {
            self.tick = self.tick + 1;
            if self.tick >= self.period {
                self.tick = 0;
                match &mut self.pump {
                    Some(p) => p.advance(),
                    None => {},
                }
                let position = self.report_position();
                return PumpStep { action: SourceAction::AdvanceSource, position };
            }
        }
        PumpStep { action: SourceAction::Nothing, position: None }
    }

    /// The status event to send for a render outcome: `Some(status)` on a
    /// transition, `None` when it repeats the last status reported.
    pub fn report_status(&mut self, status: EngineStatus) -> (e: Option<EngineStatus>)
        requires
            old(self).wf(),
        ensures
            final(self).wf(),
            final(self).spec_last_status() == Some(status),
            e == if old(self).spec_last_status() == Some(status) { None } else { Some(status) },
            final(self).spec_pump() == old(self).spec_pump(),
            final(self).spec_playing() == old(self).spec_playing(),
            final(self).spec_period() == old(self).spec_period(),
            final(self).spec_tick() == old(self).spec_tick(),
            final(self).spec_primed() == old(self).spec_primed(),
            final(self).spec_have_shader() == old(self).spec_have_shader(),
            final(self).spec_last_position() == old(self).spec_last_position(),
    {
        let same = match self.last_status {
            Some(last) => last == status,
            None => false,
        };
        if same {
            return None;
        }
        self.last_status = Some(status);
        Some(status)
    }
}

/// `u` is the position report for pump `q` given the previously reported
/// position `before`, and `after` the position now on record.
pub open spec fn reported(u: Option<PositionUpdate>, before: Option<usize>, after: Option<usize>, q: SourcePump) -> bool {
    &&& after == Some(q.frame_index() as usize)
    &&& u == if before == Some(q.frame_index() as usize) {
            None
        } else {
            Some(PositionUpdate { index: q.frame_index() as usize, len: q.frame_count() as usize })
        }
}

/// One render tick of a primed, playing multi-frame pump, as [`PumpController::pace`]
/// specifies it: the tick count grows, and on reaching the period resets while
/// the frame index advances (looping).
pub open spec fn pace_tick(tick: nat, index: nat, period: nat, count: nat) -> (nat, nat) {
    if tick + 1 >= period { (0, (index + 1) % count) } else { (tick + 1, index) }
}

/// `n` render ticks.
pub open spec fn pace_ticks(tick: nat, index: nat, period: nat, count: nat, n: nat) -> (nat, nat)
    decreases n,
{
    if n == 0 {
        (tick, index)
    } else {
        let (t, i) = pace_ticks(tick, index, period, count, (n - 1) as nat);
        pace_tick(t, i, period, count)
    }
}

/// While playing, a pump advances exactly once per `period` render ticks:
/// starting from a fresh pacing window at frame `index`, after `n` ticks the
/// window holds `n % period` ticks and the pump shows frame
/// `(index + n / period) % count`.
pub proof fn lemma_playing_advances_once_per_period(index: nat, period: nat, count: nat, n: nat)
    requires
        period >= 1,
        count >= 1,
        index < count,
    ensures
        pace_ticks(0, index, period, count, n) == (n % period, (index + n / period) % count),
    decreases n,
{
    if n == 0 {
        vstd::arithmetic::div_mod::lemma_small_mod(index, count);
        assert(0nat % period == 0 && 0nat / period == 0) by (nonlinear_arith)
            requires period >= 1;
    } else {
        lemma_playing_advances_once_per_period(index, period, count, (n - 1) as nat);
        let m = (n - 1) as nat;
        assert(m % period + 1 <= period) by (nonlinear_arith)
            requires period >= 1;
        assert(pace_ticks(0, index, period, count, n)
            == pace_tick(m % period, (index + m / period) % count, period, count));
        if m % period + 1 >= period {
            assert(n % period == 0 && n / period == m / period + 1) by (nonlinear_arith)
                requires period >= 1, n == m + 1, m % period + 1 == period;
            let x = (index + m / period) as int;
            vstd::arithmetic::div_mod::lemma_add_mod_noop(x, 1, count as int);
            if count == 1 {
                assert((x % 1 + 1) % 1 == 0 && (x + 1) % 1 == 0);
            } else {
                assert(1int % (count as int) == 1) by (nonlinear_arith)
                    requires count > 1;
            }
            assert(((x % (count as int)) + 1) % (count as int) == (x + 1) % (count as int));
        } else {
            assert(n % period == m % period + 1 && n / period == m / period) by (nonlinear_arith)
                requires period >= 1, n == m + 1, m % period + 1 < period;
        }
    }
}

/// The waiting frame's colour: opaque dark grey, streamed while no fresh
/// frame can be rendered.
pub const WAITING_RGBA: [u8; 4] = [32, 32, 32, 255];

/// How the caller's render of this tick went.
#[derive(Debug, Clone, PartialEq, Eq)]
pub enum RenderOutcome {
    /// No source or no shader yet: nothing was rendered.
    NotReady,
    /// A frame was rendered and read back.
    Rendered(Frame),
    /// The render or the read-back failed, with a short stable `code` and a
    /// human-readable `message`.
    Failed { code: String, message: String },
}

/// The status event sent for a render outcome of status `s`: one on a
/// transition from `last`, none on a repeat.
pub open spec fn status_events(last: Option<EngineStatus>, s: EngineStatus) -> Seq<EngineEvent> {
    if last == Some(s) { Seq::empty() } else { seq![EngineEvent::Status(s)] }
}

/// The stream bytes of a waiting frame: `width × height` pixels of
/// [`WAITING_RGBA`] under a header with frame `index`.
pub open spec fn waiting_frame_bytes(width: u32, height: u32, index: u64) -> Seq<u8> {
    header_bytes(FrameHeader::rgba8_spec(width, height, index)) + raster(width as nat, height as nat, solid_fn(WAITING_RGBA))
}

impl PumpController {
    /// Stream this tick's frame into `buf` (replacing what it held) and
    /// return the events to send: a rendered frame goes out as it is, under
    /// a header with frame `index`, and the engine is `Live`; otherwise the
    /// last good frame is held (`LastGood`) and a pane-sized waiting frame is
    /// streamed, a failure also sending its error first.
    pub fn emit_frame(&mut self, outcome: RenderOutcome, width: u32, height: u32, index: u64, buf: &mut Vec<u8>)
        -> (events: Vec<EngineEvent>)
        requires
            old(self).wf(),
        ensures
            final(self).wf(),
            final(self).spec_pump() == old(self).spec_pump(),
            final(self).spec_playing() == old(self).spec_playing(),
            final(self).spec_period() == old(self).spec_period(),
            final(self).spec_tick() == old(self).spec_tick(),
            final(self).spec_primed() == old(self).spec_primed(),
            final(self).spec_have_shader() == old(self).spec_have_shader(),
            final(self).spec_last_position() == old(self).spec_last_position(),
            match outcome {
                RenderOutcome::Rendered(f) => {
                    &&& final(buf)@ == header_bytes(FrameHeader::rgba8_spec(f.width, f.height, index)) + f.rgba@
                    &&& final(self).spec_last_status() == Some(EngineStatus::Live)
                    &&& events@ == status_events(old(self).spec_last_status(), EngineStatus::Live)
                },
                RenderOutcome::NotReady => {
                    &&& final(buf)@ == waiting_frame_bytes(width, height, index)
                    &&& final(self).spec_last_status() == Some(EngineStatus::LastGood)
                    &&& events@ == status_events(old(self).spec_last_status(), EngineStatus::LastGood)
                },
                RenderOutcome::Failed { code, message } => {
                    &&& final(buf)@ == waiting_frame_bytes(width, height, index)
                    &&& final(self).spec_last_status() == Some(EngineStatus::LastGood)
                    &&& events@ == seq![EngineEvent::Error { code, message }]
                        + status_events(old(self).spec_last_status(), EngineStatus::LastGood)
                },
            },
    {
        buf.clear();
        let mut events: Vec<EngineEvent> = Vec::new();
        let ghost before = self.spec_last_status();
        match outcome {
            RenderOutcome::Rendered(f) => {
                let header = FrameHeader::rgba8(f.width, f.height, index);
                header.write_to(buf);
                let mut i: usize = 0;
                let ghost head = buf@;
                while i < f.rgba.len()
                    invariant
                        i <= f.rgba@.len(),
                        buf@ == head + f.rgba@.take(i as int),
                    decreases f.rgba@.len() - i,
                {
                    assert(f.rgba@.take(i + 1) =~= f.rgba@.take(i as int).push(f.rgba@[i as int]));
                    buf.push(f.rgba[i]);
                    i = i + 1;
                }
                assert(f.rgba@.take(f.rgba@.len() as int) =~= f.rgba@);
                match self.report_status(EngineStatus::Live) {
                    Some(st) => events.push(EngineEvent::Status(st)),
                    None => {},
                }
                assert(events@ =~= status_events(before, EngineStatus::Live));
            },
            RenderOutcome::NotReady => {
                match self.report_status(EngineStatus::LastGood) {
                    Some(st) => events.push(EngineEvent::Status(st)),
                    None => {},
                }
                assert(events@ =~= status_events(before, EngineStatus::LastGood));
                write_solid_frame(buf, width, height, index, WAITING_RGBA);
                assert(buf@ =~= waiting_frame_bytes(width, height, index));
            },
            RenderOutcome::Failed { code, message } => {
                events.push(EngineEvent::Error { code, message });
                let ghost first = events@;
                match self.report_status(EngineStatus::LastGood) {
                    Some(st) => events.push(EngineEvent::Status(st)),
                    None => {},
                }
                assert(events@ =~= first + status_events(before, EngineStatus::LastGood));
                write_solid_frame(buf, width, height, index, WAITING_RGBA);
                assert(buf@ =~= waiting_frame_bytes(width, height, index));
            },
        }
        events
    }
}

} // verus!
