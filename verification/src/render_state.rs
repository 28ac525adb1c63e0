//! The renderer's frame-to-frame state that needs no GPU: whether a source
//! and a chain are set (the readiness gate), the frame counter, the history
//! ring of past source sizes, and the size builtins each pass sees.

use vstd::prelude::*;
use std::collections::VecDeque;
use crate::chain::{push_history, find_alias, first_alias, aliases_view, find_lut, last_lut, names_view, ChainError};
use crate::frame_plan::PassFrameState;

verus! {

/// Why a frame cannot be rendered.
#[derive(Debug, Clone, Copy, PartialEq, Eq, Structural)]
pub enum RenderGate {
    /// The renderer needs both a source image and a shader chain.
    NotReady,
}

/// The renderer's frame-to-frame state.
pub struct RenderState {
    source_size: Option<(u32, u32)>,
    pass_count: usize,
    frame_count: u32,
    history: VecDeque<(u32, u32)>,
    history_depth: usize,
}

/// `2^32`, the period of the frame counter.
pub open spec fn frame_period() -> int {
    0x1_0000_0000
}

/// The history ring after pushing the current source `cur` to its front,
/// keeping at most `depth` entries; nothing happens without history or
/// without a current source.
pub open spec fn pushed_history(ring: Seq<(u32, u32)>, cur: Option<(u32, u32)>, depth: nat) -> Seq<(u32, u32)> {
    match cur {
        Some(s) => if depth == 0 {
            ring
        } else {
            (seq![s] + ring).take(if ring.len() + 1 <= depth { (ring.len() + 1) as int } else { depth as int })
        },
        None => ring,
    }
}

impl RenderState {
    /// The current source's size, if a source is set.
    pub closed spec fn spec_source(&self) -> Option<(u32, u32)> {
        self.source_size
    }

    /// The number of passes of the current chain (0 without a chain).
    pub closed spec fn spec_pass_count(&self) -> nat {
        self.pass_count as nat
    }

    /// The frame counter.
    pub closed spec fn spec_frame_count(&self) -> u32 {
        self.frame_count
    }

    /// The history ring of past source sizes, newest first.
    pub closed spec fn spec_history(&self) -> Seq<(u32, u32)> {
        self.history@
    }

    /// How many past frames the chain reads.
    pub closed spec fn spec_depth(&self) -> nat {
        self.history_depth as nat
    }

    /// The history ring never holds more frames than the chain reads.
    pub closed spec fn wf(&self) -> bool {
        self.history@.len() <= self.history_depth
    }

    /// A frame can be rendered: a source and a non-empty chain are set.
    pub open spec fn spec_ready(&self) -> bool {
        self.spec_source() is Some && self.spec_pass_count() > 0
    }

    /// A renderer with no source, no chain, no history and frame 0.
    pub fn new() -> (s: RenderState)
        ensures
            s.wf(),
            s.spec_source() is None,
            s.spec_pass_count() == 0,
            s.spec_frame_count() == 0,
            s.spec_history() == Seq::<(u32, u32)>::empty(),
            s.spec_depth() == 0,
    {
        RenderState { source_size: None, pass_count: 0, frame_count: 0, history: VecDeque::new(), history_depth: 0 }
    }

    /// Load (or seek to) a source of `size`: it becomes the current source
    /// and the history ring is emptied.
    pub fn set_source(&mut self, size: (u32, u32))
        requires
            old(self).wf(),
        ensures
            final(self).wf(),
            final(self).spec_source() == Some(size),
            final(self).spec_history() == Seq::<(u32, u32)>::empty(),
            final(self).spec_pass_count() == old(self).spec_pass_count(),
            final(self).spec_frame_count() == old(self).spec_frame_count(),
            final(self).spec_depth() == old(self).spec_depth(),
    {
        self.history = VecDeque::new();
        self.source_size = Some(size);
    }

    /// Step to the next source frame of `size`: the current source is pushed
    /// to the front of the history ring (see [`pushed_history`]), then `size`
    /// becomes the current source.
    pub fn advance_source(&mut self, size: (u32, u32))
        requires
            old(self).wf(),
        ensures
            final(self).wf(),
            final(self).spec_source() == Some(size),
            final(self).spec_history() == pushed_history(old(self).spec_history(), old(self).spec_source(), old(self).spec_depth()),
            final(self).spec_pass_count() == old(self).spec_pass_count(),
            final(self).spec_frame_count() == old(self).spec_frame_count(),
            final(self).spec_depth() == old(self).spec_depth(),
    {
        if let Some(cur) = self.source_size {
            push_history(&mut self.history, cur, self.history_depth);
        }
        self.source_size = Some(size);
    }

    /// Empty the history ring.
    pub fn reset_history(&mut self)
        requires
            old(self).wf(),
        ensures
            final(self).wf(),
            final(self).spec_history() == Seq::<(u32, u32)>::empty(),
            final(self).spec_source() == old(self).spec_source(),
            final(self).spec_pass_count() == old(self).spec_pass_count(),
            final(self).spec_frame_count() == old(self).spec_frame_count(),
            final(self).spec_depth() == old(self).spec_depth(),
    {
        self.history = VecDeque::new();
    }

    /// Install a chain of `pass_count` passes reading `history_depth` past
    /// frames; the history ring is emptied. An empty chain is
    /// [`ChainError::EmptyChain`] and changes nothing.
    pub fn set_chain(&mut self, pass_count: usize, history_depth: usize) -> (r: Result<(), ChainError>)
        requires
            old(self).wf(),
        ensures
            final(self).wf(),
            pass_count == 0 <==> r == Err::<(), ChainError>(ChainError::EmptyChain),
            r is Err ==> *final(self) == *old(self),
            r is Ok ==> {
                &&& final(self).spec_pass_count() == pass_count
                &&& final(self).spec_depth() == history_depth
                &&& final(self).spec_history() == Seq::<(u32, u32)>::empty()
                &&& final(self).spec_source() == old(self).spec_source()
                &&& final(self).spec_frame_count() == old(self).spec_frame_count()
            },
    {
        if pass_count == 0 {
            return Err(ChainError::EmptyChain);
        }
        self.pass_count = pass_count;
        self.history_depth = history_depth;
        self.history = VecDeque::new();
        Ok(())
    }

    /// The readiness gate of a render: [`RenderGate::NotReady`] unless a
    /// source and a chain are set.
    pub fn begin_render(&self) -> (r: Result<(), RenderGate>)
        ensures
            r is Err <==> !self.spec_ready(),
            r is Err ==> r == Err::<(), RenderGate>(RenderGate::NotReady),
    {
        if self.source_size.is_none() || self.pass_count == 0 {
            Err(RenderGate::NotReady)
        } else {
            Ok(())
        }
    }

    /// Close a rendered frame: the frame counter advances by one, wrapping.
    pub fn finish_render(&mut self)
        requires
            old(self).wf(),
        ensures
            final(self).wf(),
            final(self).spec_frame_count() == (old(self).spec_frame_count() + 1) % frame_period(),
            final(self).spec_source() == old(self).spec_source(),
            final(self).spec_pass_count() == old(self).spec_pass_count(),
            final(self).spec_history() == old(self).spec_history(),
            final(self).spec_depth() == old(self).spec_depth(),
    {
        self.frame_count = self.frame_count.wrapping_add(1);
    }

    /// Render one frame's bookkeeping: refused with [`RenderGate::NotReady`]
    /// (nothing changes) unless ready; otherwise returns the frame counter
    /// the frame is drawn with and advances it.
    pub fn render_frame(&mut self) -> (r: Result<u32, RenderGate>)
        requires
            old(self).wf(),
        ensures
            final(self).wf(),
            r is Err <==> !old(self).spec_ready(),
            r is Err ==> r == Err::<u32, RenderGate>(RenderGate::NotReady) && *final(self) == *old(self),
            r matches Ok(n) ==> {
                &&& n == old(self).spec_frame_count()
                &&& final(self).spec_frame_count() == (n + 1) % frame_period()
                &&& final(self).spec_source() == old(self).spec_source()
                &&& final(self).spec_pass_count() == old(self).spec_pass_count()
                &&& final(self).spec_history() == old(self).spec_history()
                &&& final(self).spec_depth() == old(self).spec_depth()
            },
    {
        match self.begin_render() {
            Err(e) => Err(e),
            Ok(()) => {
                let n = self.frame_count;
                self.finish_render();
                Ok(n)
            },
        }
    }

    /// The frame counter.
    pub fn frame_count(&self) -> (n: u32)
        ensures
            n == self.spec_frame_count(),
    {
        self.frame_count
    }

    /// The current source's size, if any.
    pub fn source_size(&self) -> (s: Option<(u32, u32)>)
        ensures
            s == self.spec_source(),
    {
        self.source_size
    }

    /// The history ring's sizes, newest first.
    pub fn history_sizes(&self) -> (v: Vec<(u32, u32)>)
        ensures
            v@ == self.spec_history(),
    {
        let mut v: Vec<(u32, u32)> = Vec::new();
        let mut i: usize = 0;
        while i < self.history.len()
            invariant
                i <= self.history@.len(),
                v@ == self.history@.take(i as int),
            decreases self.history@.len() - i,
        {
            assert(self.history@.take(i + 1) =~= self.history@.take(i as int).push(self.history@[i as int]));
            v.push(self.history[i]);
            i = i + 1;
        }
        assert(self.history@.take(self.history@.len() as int) =~= self.history@);
        v
    }
}

/// Advancing the source makes the previous source the newest history entry
/// (`OriginalHistory1`), shifts the older entries back by one, and never holds
/// more frames than the chain reads.
pub proof fn lemma_history_shifts(ring: Seq<(u32, u32)>, s: (u32, u32), depth: nat)
    requires
        depth > 0,
        ring.len() <= depth,
    ensures
        pushed_history(ring, Some(s), depth)[0] == s,
        pushed_history(ring, Some(s), depth).len() == if ring.len() < depth { ring.len() + 1 } else { depth },
        forall|k: int| 1 <= k < pushed_history(ring, Some(s), depth).len() ==>
            #[trigger] pushed_history(ring, Some(s), depth)[k] == ring[k - 1],
{
}

/// Successful renders advance the frame counter by their number, modulo
/// `2^32`, whatever happens to the source and history in between.
pub proof fn lemma_frame_count_steps(start: u32, steps: nat)
    ensures
        frame_count_after(start, steps + 1) == (frame_count_after(start, steps) + 1) % frame_period(),
        frame_count_after(start, steps) == (start + steps) % frame_period(),
    decreases steps,
{
    if steps > 0 {
        lemma_frame_count_steps(start, (steps - 1) as nat);
        assert(((start + (steps - 1)) % frame_period() + 1) % frame_period() == (start + steps) % frame_period()) by (nonlinear_arith);
    }
}

/// The frame counter after `steps` successful renders from `start`.
pub open spec fn frame_count_after(start: u32, steps: nat) -> int
    decreases steps,
{
    if steps == 0 { start as int } else { (frame_count_after(start, (steps - 1) as nat) + 1) % frame_period() }
}

/// The `FrameCount` a pass sees: the frame counter modulo the pass's
/// `frame_count_mod` when that is positive, else the counter itself.
pub fn visible_frame_count(frame_count: u32, modulus: u32) -> (n: u32)
    ensures
        n == if modulus > 0 { frame_count % modulus } else { frame_count },
{
    if modulus > 0 { frame_count % modulus } else { frame_count }
}

/// The size builtins one pass sees this frame.
#[derive(Debug)]
pub struct BuiltinSizes {
    /// `SourceSize`: the pass's input.
    pub source: (u32, u32),
    /// `OriginalSize`: the source image.
    pub original: (u32, u32),
    /// `OutputSize`: the pass's own target.
    pub output: (u32, u32),
    /// `FinalViewportSize`.
    pub final_viewport: (u32, u32),
    /// `PassOutputKSize` of the earlier passes `0..pass_index`.
    pub pass_outputs: Vec<(u32, u32)>,
    /// `PassFeedbackKSize` of every pass.
    pub pass_feedbacks: Vec<(u32, u32)>,
    /// `OriginalHistoryKSize` for `K = 1..=depth` (index `K - 1`).
    pub original_history: Vec<(u32, u32)>,
}

/// The output size of a pass: its framebuffer's, or the viewport's when it
/// draws straight to the pane.
pub open spec fn output_size_spec(p: PassFrameState, viewport: (u32, u32)) -> (u32, u32) {
    match p.fbo {
        Some(f) => f.size,
        None => viewport,
    }
}

/// Every pass's output size (see [`output_size_spec`]).
pub fn output_sizes(passes: &Vec<PassFrameState>, viewport: (u32, u32)) -> (v: Vec<(u32, u32)>)
    ensures
        v@.len() == passes@.len(),
        forall|i: int| 0 <= i < v@.len() ==> #[trigger] v@[i] == output_size_spec(passes@[i], viewport),
{
    let mut v: Vec<(u32, u32)> = Vec::new();
    let mut i: usize = 0;
    while i < passes.len()
        invariant
            i <= passes@.len(),
            v@.len() == i,
            forall|j: int| 0 <= j < i ==> #[trigger] v@[j] == output_size_spec(passes@[j], viewport),
        decreases passes@.len() - i,
    {
        let s = match passes[i].fbo {
            Some(f) => f.size,
            None => viewport,
        };
        v.push(s);
        i = i + 1;
    }
    v
}

/// The size of history slot `k`: the stored frame's, or the source's while
/// the ring has not filled that far.
pub open spec fn history_slot(history: Seq<(u32, u32)>, k: int, original: (u32, u32)) -> (u32, u32) {
    if k < history.len() { history[k] } else { original }
}

/// The size builtins of pass `pass_index` given every pass's output size:
/// pass 0 reads the source, pass `i` pass `i - 1`'s output; only earlier
/// passes' outputs are visible, every pass's feedback is; each of the
/// `depth` history slots reports its frame, or the source while cold.
pub fn builtin_sizes(
    pass_index: usize,
    outputs: &Vec<(u32, u32)>,
    history: &Vec<(u32, u32)>,
    depth: usize,
    original: (u32, u32),
    viewport: (u32, u32),
) -> (r: BuiltinSizes)
    requires
        pass_index < outputs@.len(),
    ensures
        r.source == if pass_index == 0 { original } else { outputs@[pass_index - 1] },
        r.original == original,
        r.output == outputs@[pass_index as int],
        r.final_viewport == viewport,
        r.pass_outputs@ == outputs@.take(pass_index as int),
        r.pass_feedbacks@ == outputs@,
        r.original_history@.len() == depth,
        forall|k: int| 0 <= k < depth ==> #[trigger] r.original_history@[k] == history_slot(history@, k, original),
{
    let mut earlier: Vec<(u32, u32)> = Vec::new();
    let mut i: usize = 0;
    while i < pass_index
        invariant
            i <= pass_index < outputs@.len(),
            earlier@ == outputs@.take(i as int),
        decreases pass_index - i,
    {
        assert(outputs@.take(i + 1) =~= outputs@.take(i as int).push(outputs@[i as int]));
        earlier.push(outputs[i]);
        i = i + 1;
    }
    let mut all: Vec<(u32, u32)> = Vec::new();
    let mut j: usize = 0;
    while j < outputs.len()
        invariant
            j <= outputs@.len(),
            all@ == outputs@.take(j as int),
        decreases outputs@.len() - j,
    {
        assert(outputs@.take(j + 1) =~= outputs@.take(j as int).push(outputs@[j as int]));
        all.push(outputs[j]);
        j = j + 1;
    }
    assert(outputs@.take(outputs@.len() as int) =~= outputs@);
    let mut slots: Vec<(u32, u32)> = Vec::new();
    let mut k: usize = 0;
    while k < depth
        invariant
            k <= depth,
            slots@.len() == k,
            forall|m: int| 0 <= m < k ==> #[trigger] slots@[m] == history_slot(history@, m, original),
        decreases depth - k,
    {
        let s = if k < history.len() { history[k] } else { original };
        slots.push(s);
        k = k + 1;
    }
    let source = if pass_index == 0 { original } else { outputs[pass_index - 1] };
    BuiltinSizes {
        source,
        original,
        output: outputs[pass_index],
        final_viewport: viewport,
        pass_outputs: earlier,
        pass_feedbacks: all,
        original_history: slots,
    }
}

/// `<alias>Size` for pass `pass_index`: the output size of the pass the
/// alias names, visible only to passes after it.
pub open spec fn alias_size_spec(aliases: Seq<Option<Seq<char>>>, name: Seq<char>, pass_index: nat, outputs: Seq<(u32, u32)>) -> Option<(u32, u32)> {
    match first_alias(aliases, name) {
        Some(k) => if k < pass_index && k < outputs.len() { Some(outputs[k as int]) } else { None },
        None => None,
    }
}

/// `<alias>FeedbackSize`: the output size of the pass the alias names, for
/// any pass.
pub open spec fn alias_feedback_size_spec(aliases: Seq<Option<Seq<char>>>, name: Seq<char>, outputs: Seq<(u32, u32)>) -> Option<(u32, u32)> {
    match first_alias(aliases, name) {
        Some(k) => if k < outputs.len() { Some(outputs[k as int]) } else { None },
        None => None,
    }
}

/// `<alias>Size` as pass `pass_index` sees it (see [`alias_size_spec`]).
pub fn alias_size(aliases: &Vec<Option<String>>, name: &String, pass_index: usize, outputs: &Vec<(u32, u32)>) -> (r: Option<(u32, u32)>)
    ensures
        r == alias_size_spec(aliases_view(aliases@), name@, pass_index as nat, outputs@),
{
    match find_alias(aliases, name) {
        Some(k) => if k < pass_index && k < outputs.len() { Some(outputs[k]) } else { None },
        None => None,
    }
}

/// `<alias>FeedbackSize` (see [`alias_feedback_size_spec`]).
pub fn alias_feedback_size(aliases: &Vec<Option<String>>, name: &String, outputs: &Vec<(u32, u32)>) -> (r: Option<(u32, u32)>)
    ensures
        r == alias_feedback_size_spec(aliases_view(aliases@), name@, outputs@),
{
    match find_alias(aliases, name) {
        Some(k) => if k < outputs.len() { Some(outputs[k]) } else { None },
        None => None,
    }
}

/// `<NAME>Size` of a LUT: the size of the last LUT registered under `name`.
pub open spec fn lut_size_spec(names: Seq<Seq<char>>, name: Seq<char>, sizes: Seq<(u32, u32)>) -> Option<(u32, u32)> {
    match last_lut(names, name) {
        Some(k) => if k < sizes.len() { Some(sizes[k as int]) } else { None },
        None => None,
    }
}

/// `<NAME>Size` of a LUT (see [`lut_size_spec`]); `sizes[k]` is LUT `k`'s size.
pub fn lut_size(names: &Vec<String>, sizes: &Vec<(u32, u32)>, name: &String) -> (r: Option<(u32, u32)>)
    ensures
        r == lut_size_spec(names_view(names@), name@, sizes@),
{
    match find_lut(names, name) {
        Some(k) => if k < sizes.len() { Some(sizes[k]) } else { None },
        None => None,
    }
}

/// Size builtins are causal: a pass sees `<alias>Size` only of a pass before
/// it, and every pass output it sees belongs to an earlier pass.
pub proof fn lemma_sizes_causal(aliases: Seq<Option<Seq<char>>>, name: Seq<char>, pass_index: nat, outputs: Seq<(u32, u32)>)
    ensures
        alias_size_spec(aliases, name, pass_index, outputs) is Some ==>
            first_alias(aliases, name) is Some && first_alias(aliases, name).unwrap() < pass_index,
        alias_size_spec(aliases, name, pass_index, outputs) is Some ==>
            alias_size_spec(aliases, name, pass_index, outputs) == alias_feedback_size_spec(aliases, name, outputs),
{
}

} // verus!
