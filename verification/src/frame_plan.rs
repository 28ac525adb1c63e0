//! Per-frame framebuffer planning: which passes own a framebuffer this frame,
//! at what size, format and mip count; when a framebuffer is stale and must be
//! reallocated; and the feedback ping-pong (a fresh twin is reallocated and
//! both halves cleared, then the pair is swapped once per frame).
//!
//! The planner walks the chain one pass at a time: the caller resolves each
//! pass's scale against [`ChainFrame::input_size`] and hands the resolved size
//! to [`ChainFrame::plan_next`], which decides and updates the pass.

use vstd::prelude::*;
use crate::pass::FboFormat;
use crate::chain::{mip_level_count_for, bit_len};

verus! {

/// A framebuffer as the chain holds it.
#[derive(Debug, Clone, Copy, PartialEq, Eq)]
pub struct FboDesc {
    /// Width and height in pixels.
    pub size: (u32, u32),
    /// Pixel format.
    pub format: FboFormat,
    /// Number of mip levels.
    pub mip_levels: u32,
}

/// What the frame planner reads and updates of one pass.
#[derive(Debug, Clone, Copy, PartialEq, Eq)]
pub struct PassFrameState {
    /// The chain gave the pass a framebuffer of its own.
    pub owns_fbo: bool,
    /// The pass declares an explicit scale.
    pub has_scale: bool,
    /// A later pass reads this pass's output with mipmaps.
    pub produces_mips: bool,
    /// Something reads this pass's previous-frame output.
    pub is_feedback_target: bool,
    /// The pass's render-target format.
    pub target_format: FboFormat,
    /// The framebuffer the pass draws into this frame.
    pub fbo: Option<FboDesc>,
    /// The feedback twin (last frame's output) of a feedback target.
    pub feedback_fbo: Option<FboDesc>,
}

/// What the planner decided for one pass this frame.
#[derive(Debug, Clone, Copy, PartialEq, Eq)]
pub struct PassPlan {
    /// The framebuffer the pass draws into, or `None` when it draws straight
    /// to the pane (and any framebuffer it had is dropped).
    pub target: Option<FboDesc>,
    /// The pass's framebuffer is (re)allocated.
    pub reallocate: bool,
    /// The feedback twin is (re)allocated and both halves cleared.
    pub reallocate_twin: bool,
    /// The framebuffer and its feedback twin are swapped.
    pub swap: bool,
    /// The input size of the next pass.
    pub next_input: (u32, u32),
}

/// The full mip-chain length of a texture of `size`.
pub open spec fn mip_chain_len(size: (u32, u32)) -> nat {
    bit_len(if size.0 == 0 && size.1 == 0 { 1nat } else if size.0 >= size.1 { size.0 as nat } else { size.1 as nat })
}

/// The pass owns a framebuffer this frame: it already does, or it is the
/// final pass under a simulated viewport.
pub open spec fn owns_now(p: PassFrameState, is_last: bool, sim_active: bool) -> bool {
    p.owns_fbo || (is_last && sim_active)
}

/// The framebuffer an owning pass needs: a final pass without a scale under
/// a simulated viewport is sized to the viewport, any other to its resolved
/// scale; a full mip chain when it produces mips, else one level.
pub open spec fn target_desc(p: PassFrameState, is_last: bool, sim_active: bool, viewport: (u32, u32), scaled: (u32, u32)) -> FboDesc {
    let size = if is_last && sim_active && !p.has_scale { viewport } else { scaled };
    FboDesc {
        size,
        format: p.target_format,
        mip_levels: if p.produces_mips { mip_chain_len(size) as u32 } else { 1 },
    }
}

/// The plan for pass `p`: an owning pass reallocates exactly when it has no
/// framebuffer or one that differs in size, format or mip count; a feedback
/// target reallocates (and clears) its twin when the framebuffer was stale or
/// the twin is missing or differs, and always swaps the pair. A pass that does
/// not own a framebuffer draws to the pane, whose size the next pass reads.
pub open spec fn plan_spec(
    p: PassFrameState,
    is_last: bool,
    sim_active: bool,
    viewport: (u32, u32),
    pane: (u32, u32),
    scaled: (u32, u32),
) -> PassPlan {
    if owns_now(p, is_last, sim_active) {
        let d = target_desc(p, is_last, sim_active, viewport, scaled);
        let stale = p.fbo != Some(d);
        PassPlan {
            target: Some(d),
            reallocate: stale,
            reallocate_twin: p.is_feedback_target && (stale || p.feedback_fbo != Some(d)),
            swap: p.is_feedback_target,
            next_input: d.size,
        }
    } else {
        PassPlan { target: None, reallocate: false, reallocate_twin: false, swap: false, next_input: pane }
    }
}

/// The pass after carrying out `plan`.
pub open spec fn applied_spec(p: PassFrameState, plan: PassPlan) -> PassFrameState {
    let fbo = if plan.reallocate { plan.target } else { p.fbo };
    let twin = if plan.reallocate_twin { plan.target } else { p.feedback_fbo };
    if plan.target is None {
        PassFrameState { fbo: None, ..p }
    } else if plan.swap {
        PassFrameState { fbo: twin, feedback_fbo: fbo, ..p }
    } else {
        PassFrameState { fbo, feedback_fbo: twin, ..p }
    }
}

fn same_desc(a: Option<FboDesc>, b: FboDesc) -> (r: bool)
    ensures
        r == (a == Some(b)),
{
    match a {
        Some(f) => f.size.0 == b.size.0 && f.size.1 == b.size.1 && f.format == b.format && f.mip_levels == b.mip_levels,
        None => false,
    }
}

/// Plan one pass (see [`plan_spec`]); `scaled` is the pass's scale resolved
/// against its input size and the viewport.
pub fn plan_pass(
    p: &PassFrameState,
    is_last: bool,
    sim_active: bool,
    viewport: (u32, u32),
    pane: (u32, u32),
    scaled: (u32, u32),
) -> (plan: PassPlan)
    ensures
        plan == plan_spec(*p, is_last, sim_active, viewport, pane, scaled),
{
    if p.owns_fbo || (is_last && sim_active) {
        let size = if is_last && sim_active && !p.has_scale { viewport } else { scaled };
        let mips = if p.produces_mips { mip_level_count_for(size) } else { 1 };
        let d = FboDesc { size, format: p.target_format, mip_levels: mips };
        assert(d == target_desc(*p, is_last, sim_active, viewport, scaled));
        let stale = !same_desc(p.fbo, d);
        let twin = p.is_feedback_target && (stale || !same_desc(p.feedback_fbo, d));
        PassPlan { target: Some(d), reallocate: stale, reallocate_twin: twin, swap: p.is_feedback_target, next_input: size }
    } else {
        PassPlan { target: None, reallocate: false, reallocate_twin: false, swap: false, next_input: pane }
    }
}

/// Carry out `plan` on the pass (see [`applied_spec`]).
pub fn apply_plan(p: &mut PassFrameState, plan: &PassPlan)
    ensures
        *final(p) == applied_spec(*old(p), *plan),
{
    if plan.target.is_none() {
        p.fbo = None;
        return;
    }
    if plan.reallocate {
        p.fbo = plan.target;
    }
    if plan.reallocate_twin {
        p.feedback_fbo = plan.target;
    }
    if plan.swap {
        let f = p.fbo;
        p.fbo = p.feedback_fbo;
        p.feedback_fbo = f;
    }
}

/// After a plan is carried out, an owning pass draws into a framebuffer that
/// matches its target, a feedback target's twin matches it too, and a pass
/// that does not own one has none; planning again with the same sizes then
/// reallocates nothing.
pub proof fn lemma_plan_settles(
    p: PassFrameState,
    is_last: bool,
    sim_active: bool,
    viewport: (u32, u32),
    pane: (u32, u32),
    scaled: (u32, u32),
)
    ensures ({
        let plan = plan_spec(p, is_last, sim_active, viewport, pane, scaled);
        let q = applied_spec(p, plan);
        let again = plan_spec(q, is_last, sim_active, viewport, pane, scaled);
        &&& plan.target is Some ==> q.fbo == plan.target
        &&& plan.target is Some && p.is_feedback_target ==> q.feedback_fbo == plan.target
        &&& plan.target is None ==> q.fbo is None
        &&& !again.reallocate && !again.reallocate_twin
        &&& again.target == plan.target && again.next_input == plan.next_input
    }),
{
}

/// A feedback target whose framebuffers already match keeps both and only
/// swaps them: the buffer drawn last frame becomes the one read this frame.
pub proof fn lemma_feedback_swaps(
    p: PassFrameState,
    is_last: bool,
    sim_active: bool,
    viewport: (u32, u32),
    pane: (u32, u32),
    scaled: (u32, u32),
)
    requires
        owns_now(p, is_last, sim_active),
        p.is_feedback_target,
        p.fbo == Some(target_desc(p, is_last, sim_active, viewport, scaled)),
        p.feedback_fbo == p.fbo,
    ensures ({
        let plan = plan_spec(p, is_last, sim_active, viewport, pane, scaled);
        let q = applied_spec(p, plan);
        &&& !plan.reallocate && !plan.reallocate_twin && plan.swap
        &&& q.fbo == p.feedback_fbo && q.feedback_fbo == p.fbo
    }),
{
}

/// A pass left without a framebuffer of its own (a final pass with no scale,
/// no feedback reader and no simulated viewport) draws to the pane: its
/// framebuffer is dropped and the next pass reads the pane's size.
pub proof fn lemma_unowned_draws_to_pane(
    p: PassFrameState,
    is_last: bool,
    sim_active: bool,
    viewport: (u32, u32),
    pane: (u32, u32),
    scaled: (u32, u32),
)
    requires
        !owns_now(p, is_last, sim_active),
    ensures
        plan_spec(p, is_last, sim_active, viewport, pane, scaled).next_input == pane,
        applied_spec(p, plan_spec(p, is_last, sim_active, viewport, pane, scaled)).fbo is None,
        applied_spec(p, plan_spec(p, is_last, sim_active, viewport, pane, scaled)).feedback_fbo == p.feedback_fbo,
{
}

/// The walk down the chain for one frame: the viewport and pane sizes, the
/// running input size and the index of the next pass to plan.
pub struct ChainFrame {
    viewport: (u32, u32),
    pane: (u32, u32),
    sim_active: bool,
    pass_count: usize,
    input: (u32, u32),
    next: usize,
}

impl ChainFrame {
    /// The viewport size viewport-relative scales resolve against.
    pub closed spec fn spec_viewport(&self) -> (u32, u32) {
        self.viewport
    }

    /// The pane size.
    pub closed spec fn spec_pane(&self) -> (u32, u32) {
        self.pane
    }

    /// A simulated viewport is active.
    pub closed spec fn spec_sim_active(&self) -> bool {
        self.sim_active
    }

    /// The number of passes in the chain.
    pub closed spec fn spec_pass_count(&self) -> nat {
        self.pass_count as nat
    }

    /// The input size of the next pass.
    pub closed spec fn spec_input(&self) -> (u32, u32) {
        self.input
    }

    /// The index of the next pass to plan.
    pub closed spec fn spec_next(&self) -> nat {
        self.next as nat
    }

    /// Start a frame: pass 0 reads the source, of `source_size`.
    pub fn start(source_size: (u32, u32), viewport: (u32, u32), pane: (u32, u32), sim_active: bool, pass_count: usize) -> (c: ChainFrame)
        ensures
            c.spec_input() == source_size,
            c.spec_next() == 0,
            c.spec_viewport() == viewport,
            c.spec_pane() == pane,
            c.spec_sim_active() == sim_active,
            c.spec_pass_count() == pass_count,
    {
        ChainFrame { viewport, pane, sim_active, pass_count, input: source_size, next: 0 }
    }

    /// The size the next pass's scale resolves against.
    pub fn input_size(&self) -> (s: (u32, u32))
        ensures
            s == self.spec_input(),
    {
        self.input
    }

    /// Every pass has been planned.
    pub fn is_done(&self) -> (b: bool)
        ensures
            b == (self.spec_next() >= self.spec_pass_count()),
    {
        self.next >= self.pass_count
    }

    /// Plan the next pass, whose scale resolved against
    /// [`ChainFrame::input_size`] gives `scaled`, carry the plan out on `pass`
    /// and move on: the pass after it reads the plan's output size.
    pub fn plan_next(&mut self, pass: &mut PassFrameState, scaled: (u32, u32)) -> (plan: PassPlan)
        requires
            old(self).spec_next() < old(self).spec_pass_count(),
        ensures
            plan == plan_spec(
                *old(pass),
                old(self).spec_next() + 1 == old(self).spec_pass_count(),
                old(self).spec_sim_active(),
                old(self).spec_viewport(),
                old(self).spec_pane(),
                scaled,
            ),
            *final(pass) == applied_spec(*old(pass), plan),
            final(self).spec_input() == plan.next_input,
            final(self).spec_next() == old(self).spec_next() + 1,
            final(self).spec_viewport() == old(self).spec_viewport(),
            final(self).spec_pane() == old(self).spec_pane(),
            final(self).spec_sim_active() == old(self).spec_sim_active(),
            final(self).spec_pass_count() == old(self).spec_pass_count(),
    {
        let is_last = self.next + 1 == self.pass_count;
        let plan = plan_pass(pass, is_last, self.sim_active, self.viewport, self.pane, scaled);
        apply_plan(pass, &plan);
        self.input = plan.next_input;
        self.next = self.next + 1;
        plan
    }
}

/// The mip count the source texture needs: a full chain when pass 0 reads
/// it with mipmaps, else one level.
pub open spec fn source_mips_wanted(pass0_mipmap_input: bool, size: (u32, u32)) -> nat {
    if pass0_mipmap_input { mip_chain_len(size) } else { 1 }
}

/// The source texture's mip count for this frame, and whether the texture
/// (with `have` levels, `None` when there is none yet) must be rebuilt with
/// it: exactly when the count it has differs.
pub fn source_mips(pass0_mipmap_input: bool, size: (u32, u32), have: Option<u32>) -> (r: (u32, bool))
    ensures
        r.0 == source_mips_wanted(pass0_mipmap_input, size),
        r.1 == (have != Some(r.0)),
{
    let want = if pass0_mipmap_input { mip_level_count_for(size) } else { 1 };
    let rebuild = match have {
        Some(n) => n != want,
        None => true,
    };
    (want, rebuild)
}

} // verus!
