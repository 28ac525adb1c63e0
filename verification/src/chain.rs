//! Chain-level decisions of the multi-pass renderer that need no GPU: the
//! alias table, which pass outputs carry a mip chain, which passes are
//! double-buffered for feedback, where each texture a pass samples comes from
//! (and with which sampler), the history ring, and mip-chain lengths.

use vstd::prelude::*;
use std::collections::{HashSet, VecDeque};
use crate::bindtable::{TextureClass, ClassView};
use crate::pass::WrapMode;
use crate::reflect::{UniformBlock, BlockBinding};
use crate::source::Frame;
use crate::text::{chars_of_string, vec_eq};

verus! {

broadcast use vstd::std_specs::hash::group_hash_axioms;

/// A lookup texture for the chain: its name (how passes reference it), the
/// decoded RGBA8 image, and its own sampler settings.
#[derive(Debug, Clone)]
pub struct LutSpec {
    /// The LUT name.
    pub name: String,
    /// The decoded image.
    pub image: Frame,
    /// `true`: linear filtering; `false`: nearest.
    pub filter_linear: bool,
    /// The LUT's wrap mode.
    pub wrap_mode: WrapMode,
    /// Generate and sample a mip chain for the LUT.
    pub mipmap: bool,
}

/// The size of a uniform buffer when no block needs more: one `vec4`.
pub const UBO_FALLBACK_SIZE: u64 = 16;

/// The size of the uniform buffer backing `block`: the block's size, but
/// never less than [`UBO_FALLBACK_SIZE`] (a bound buffer needs at least one
/// `vec4` even when there is no block).
pub fn uniform_buffer_size(block: Option<&UniformBlock>) -> (n: u64)
    ensures
        n == match block {
            Some(b) => if b.size as u64 >= UBO_FALLBACK_SIZE { b.size as u64 } else { UBO_FALLBACK_SIZE },
            None => UBO_FALLBACK_SIZE,
        },
{
    match block {
        Some(b) => if b.size as u64 >= UBO_FALLBACK_SIZE { b.size as u64 } else { UBO_FALLBACK_SIZE },
        None => UBO_FALLBACK_SIZE,
    }
}

/// The index of the first block not bound where the built-in block is (with
/// no built-in block, the first block): the pass's dedicated parameter block.
pub fn param_block_index(blocks: &Vec<UniformBlock>, builtin: Option<BlockBinding>) -> (r: Option<usize>)
    ensures
        match r {
            Some(i) => i < blocks@.len() && Some(blocks@[i as int].binding) != builtin
                && forall|j: int| 0 <= j < i ==> Some(#[trigger] blocks@[j].binding) == builtin,
            None => forall|j: int| 0 <= j < blocks@.len() ==> Some(#[trigger] blocks@[j].binding) == builtin,
        },
{
    let mut i: usize = 0;
    while i < blocks.len()
        invariant
            i <= blocks@.len(),
            forall|j: int| 0 <= j < i ==> Some(#[trigger] blocks@[j].binding) == builtin,
        decreases blocks@.len() - i,
    {
        let same = match builtin {
            Some(bb) => blocks[i].binding == bb,
            None => false,
        };
        if !same {
            return Some(i);
        }
        i = i + 1;
    }
    None
}

/// The set-0 binding number of a reflected uniform block; `None` for a
/// push-constant block, a block in another set, or no block.
pub fn block_binding(block: Option<&UniformBlock>) -> (r: Option<u32>)
    ensures
        r == match block {
            Some(b) => match b.binding {
                BlockBinding::Uniform { set, binding } => if set == 0 { Some(binding) } else { None },
                BlockBinding::PushConstant => None,
            },
            None => None,
        },
{
    match block {
        Some(b) => match b.binding {
            BlockBinding::Uniform { set, binding } => if set == 0 { Some(binding) } else { None },
            BlockBinding::PushConstant => None,
        },
        None => None,
    }
}

/// The number of binary digits of `m` (0 for 0).
pub open spec fn bit_len(m: nat) -> nat
    decreases m,
{
    if m == 0 { 0 } else { 1 + bit_len(m / 2) }
}

/// The full mip-chain length for a 2D texture of `size`:
/// `floor(log2(max(w, h, 1))) + 1`.
pub fn mip_level_count_for(size: (u32, u32)) -> (n: u32)
    ensures
        n == bit_len(if size.0 == 0 && size.1 == 0 { 1nat } else if size.0 >= size.1 { size.0 as nat } else { size.1 as nat }),
        1 <= n <= 32,
{
    let max_dim = if size.0 >= size.1 { size.0 } else { size.1 };
    let max_dim = if max_dim == 0 { 1 } else { max_dim };
    let mut m = max_dim;
    let mut n: u32 = 0;
    assert(pow2_of(0) == 1);
    while m > 0
        invariant
            bit_len(max_dim as nat) == n + bit_len(m as nat),
            n <= 32,
            m as nat * pow2_of(n as nat) <= max_dim,
        decreases m,
    {
        proof { lemma_pow2_double(n as nat); }
        assert((m / 2) as nat * pow2_of((n + 1) as nat) <= max_dim) by (nonlinear_arith)
            requires
                m as nat * pow2_of(n as nat) <= max_dim,
                pow2_of((n + 1) as nat) == 2 * pow2_of(n as nat),
                m > 0;
        if n == 32 {
            proof { lemma_pow2_32(); }
            assert(false) by (nonlinear_arith)
                requires
                    m as nat * pow2_of(32) <= max_dim,
                    pow2_of(32) == 0x1_0000_0000,
                    m > 0,
                    max_dim <= 0xffff_ffff;
        }
        m = m / 2;
        n = n + 1;
    }
    proof { lemma_bit_len_pos(max_dim as nat); }
    n
}

/// `2^n`.
pub open spec fn pow2_of(n: nat) -> nat
    decreases n,
{
    if n == 0 { 1 } else { 2 * pow2_of((n - 1) as nat) }
}

proof fn lemma_pow2_double(n: nat)
    ensures
        pow2_of(n + 1) == 2 * pow2_of(n),
{
}

proof fn lemma_pow2_32()
    ensures
        pow2_of(32) == 0x1_0000_0000,
{
    reveal_with_fuel(pow2_of, 33);
}

proof fn lemma_bit_len_pos(m: nat)
    requires
        m >= 1,
    ensures
        bit_len(m) >= 1,
{
}

/// The index of the first pass whose alias is `name` (a duplicate alias
/// keeps the first pass).
pub open spec fn first_alias(a: Seq<Option<Seq<char>>>, name: Seq<char>) -> Option<nat>
    decreases a.len(),
{
    if a.len() == 0 {
        None
    } else {
        match first_alias(a.drop_last(), name) {
            Some(i) => Some(i),
            None => if a.last() == Some(name) { Some((a.len() - 1) as nat) } else { None },
        }
    }
}

/// The aliases of a chain's passes, by content.
pub open spec fn aliases_view(a: Seq<Option<String>>) -> Seq<Option<Seq<char>>> {
    a.map_values(|o: Option<String>| match o { Some(s) => Some(s@), None => None })
}

proof fn lemma_first_alias_bound(a: Seq<Option<Seq<char>>>, name: Seq<char>)
    ensures
        first_alias(a, name) matches Some(i) ==> i < a.len() && a[i as int] == Some(name),
    decreases a.len(),
{
    if a.len() > 0 {
        lemma_first_alias_bound(a.drop_last(), name);
    }
}

/// The pass a chain alias names (see [`first_alias`]).
pub fn find_alias(aliases: &Vec<Option<String>>, name: &String) -> (r: Option<usize>)
    ensures
        match r {
            Some(i) => first_alias(aliases_view(aliases@), name@) == Some(i as nat) && i < aliases@.len(),
            None => first_alias(aliases_view(aliases@), name@) is None,
        },
{
    let ghost a = aliases_view(aliases@);
    proof { lemma_first_alias_bound(a, name@); }
    let target = chars_of_string(name);
    let mut i: usize = 0;
    assert(a.take(0) =~= Seq::<Option<Seq<char>>>::empty());
    while i < aliases.len()
        invariant
            i <= aliases@.len(),
            a == aliases_view(aliases@),
            target@ == name@,
            first_alias(a.take(i as int), name@) is None,
        decreases aliases@.len() - i,
    {
        assert(a.take(i + 1).drop_last() =~= a.take(i as int));
        let hit = match &aliases[i] {
            Some(s) => {
                let c = chars_of_string(s);
                vec_eq(&c, &target)
            },
            None => false,
        };
        if hit {
            proof {
                lemma_first_alias_prefix(a, name@, i + 1);
            }
            return Some(i);
        }
        i = i + 1;
    }
    assert(a.take(aliases@.len() as int) =~= a);
    None
}

/// Once the first alias is found in a prefix, the whole agrees.
proof fn lemma_first_alias_prefix(a: Seq<Option<Seq<char>>>, name: Seq<char>, k: int)
    requires
        0 <= k <= a.len(),
        first_alias(a.take(k), name) is Some,
    ensures
        first_alias(a, name) == first_alias(a.take(k), name),
    decreases a.len() - k,
{
    if k < a.len() {
        assert(a.take(k + 1).drop_last() =~= a.take(k));
        lemma_first_alias_prefix(a, name, k + 1);
    } else {
        assert(a.take(k) =~= a);
    }
}

/// Which pass outputs are sampled with mips: pass `i`'s, when the next pass
/// reads its input with `mipmap_input` (the final pass never produces mips).
pub fn produces_mips(mipmap_input: &Vec<bool>) -> (r: Vec<bool>)
    ensures
        r@.len() == mipmap_input@.len(),
        forall|i: int| 0 <= i < r@.len() ==> #[trigger] r@[i] == (i + 1 < mipmap_input@.len() && mipmap_input@[i + 1]),
{
    let n = mipmap_input.len();
    let mut r: Vec<bool> = Vec::new();
    let mut i: usize = 0;
    while i < n
        invariant
            n == mipmap_input@.len(),
            i <= n,
            r@.len() == i,
            forall|k: int| 0 <= k < i ==> #[trigger] r@[k] == (k + 1 < n && mipmap_input@[k + 1]),
        decreases n - i,
    {
        r.push(i + 1 < n && mipmap_input[i + 1]);
        i = i + 1;
    }
    r
}

/// Whether texture class `c` reads pass `i`'s previous-frame output: a
/// `PassFeedback(i)`, or an alias feedback whose alias names pass `i`.
pub open spec fn reads_feedback_of(c: ClassView, i: nat, aliases: Seq<Option<Seq<char>>>) -> bool {
    match c {
        ClassView::PassFeedback(n) => n == i,
        ClassView::AliasFeedback(name) => first_alias(aliases, name) == Some(i),
        _ => false,
    }
}

/// The texture classes each pass samples, by content.
pub open spec fn slots_view(s: Seq<Vec<TextureClass>>) -> Seq<Seq<ClassView>> {
    s.map_values(|v: Vec<TextureClass>| v@.map_values(|c: TextureClass| c@))
}

/// Whether some slot of passes `0..p` (and of pass `p`, slots `0..q`) reads
/// pass `i`'s feedback.
pub open spec fn feedback_read_before(slots: Seq<Seq<ClassView>>, p: int, q: int, i: nat, aliases: Seq<Option<Seq<char>>>) -> bool {
    exists|pp: int, qq: int| 0 <= pp < slots.len() && 0 <= qq < slots[pp].len()
        && (pp < p || (pp == p && qq < q))
        && #[trigger] reads_feedback_of(slots[pp][qq], i, aliases)
}

/// Whether some pass samples `OriginalHistory(k)`.
pub open spec fn history_read(slots: Seq<Seq<ClassView>>, k: nat) -> bool {
    exists|p: int, q: int| 0 <= p < slots.len() && 0 <= q < slots[p].len()
        && #[trigger] slots[p][q] == ClassView::OriginalHistory(k)
}

/// `c` is no `OriginalHistoryK` deeper than `d`.
pub open spec fn history_within(c: ClassView, d: nat) -> bool {
    match c {
        ClassView::OriginalHistory(k) => k <= d,
        _ => true,
    }
}

/// How many past source frames the chain keeps: the deepest
/// `OriginalHistoryK` any pass samples (0 when none does).
pub fn history_depth(slots: &Vec<Vec<TextureClass>>) -> (d: usize)
    ensures
        forall|p: int, q: int| 0 <= p < slots@.len() && 0 <= q < slots@[p]@.len()
            ==> history_within(#[trigger] slots_view(slots@)[p][q], d as nat),
        d == 0 || history_read(slots_view(slots@), d as nat),
{
    let ghost sv = slots_view(slots@);
    let mut d: usize = 0;
    let mut p: usize = 0;
    while p < slots.len()
        invariant
            p <= slots@.len(),
            sv == slots_view(slots@),
            forall|pp: int, q: int| 0 <= pp < p && 0 <= q < slots@[pp]@.len()
                ==> history_within(#[trigger] sv[pp][q], d as nat),
            d == 0 || history_read(sv, d as nat),
        decreases slots@.len() - p,
    {
        let row = &slots[p];
        assert(sv[p as int] == row@.map_values(|c: TextureClass| c@));
        let mut q: usize = 0;
        while q < row.len()
            invariant
                q <= row@.len(),
                p < slots@.len(),
                row == slots@[p as int],
                sv == slots_view(slots@),
                sv[p as int] == row@.map_values(|c: TextureClass| c@),
                forall|pp: int, qq: int| 0 <= pp < p && 0 <= qq < slots@[pp]@.len()
                    ==> history_within(#[trigger] sv[pp][qq], d as nat),
                forall|qq: int| 0 <= qq < q ==> history_within(#[trigger] sv[p as int][qq], d as nat),
                d == 0 || history_read(sv, d as nat),
            decreases row@.len() - q,
        {
            assert(sv[p as int][q as int] == row@[q as int]@);
            match &row[q] {
                TextureClass::OriginalHistory(k) => {
                    if *k > d {
                        d = *k;
                        assert(sv[p as int][q as int] == ClassView::OriginalHistory(d as nat));
                    }
                },
                _ => {},
            }
            q = q + 1;
        }
        p = p + 1;
    }
    d
}

/// Why a chain cannot be set.
#[derive(Debug, Clone, Copy, PartialEq, Eq, Structural)]
pub enum ChainError {
    /// A render chain needs at least one pass.
    EmptyChain,
}

/// How one pass of a chain holds its output.
#[derive(Debug, Clone, Copy, PartialEq, Eq, Structural)]
pub struct FboPlan {
    /// The pass renders into a framebuffer of its own.
    pub owns_fbo: bool,
    /// The pass is the final one and still owns a framebuffer, which is then
    /// stretched onto the output target.
    pub final_owns_fbo: bool,
    /// The pass's scale is replaced by viewport × 1 on both axes (a final pass
    /// without a scale that must keep its output for feedback).
    pub viewport_scale: bool,
    /// Something reads the pass's previous-frame output.
    pub is_feedback_target: bool,
}

/// The framebuffer plan of pass `i` of `n`, given whether it declares a scale
/// and whether it is a feedback target. Every pass but the final one owns a
/// framebuffer; the final one owns one when it declares a scale, or when it is
/// a feedback target (then at viewport size).
pub open spec fn fbo_plan_spec(i: nat, n: nat, has_scale: bool, target: bool) -> FboPlan {
    let is_final = i + 1 == n;
    let final_scaled = is_final && has_scale;
    let owns = !is_final || final_scaled;
    if target && !owns {
        FboPlan { owns_fbo: true, final_owns_fbo: true, viewport_scale: true, is_feedback_target: true }
    } else {
        FboPlan { owns_fbo: owns, final_owns_fbo: final_scaled, viewport_scale: false, is_feedback_target: target }
    }
}

/// Plan each pass's framebuffer for a chain of `has_scale.len()` passes
/// (`targets` as [`feedback_targets`] gives them); an empty chain is
/// [`ChainError::EmptyChain`].
pub fn plan_fbos(has_scale: &Vec<bool>, targets: &HashSet<usize>) -> (r: Result<Vec<FboPlan>, ChainError>)
    ensures
        has_scale@.len() == 0 <==> r == Err::<Vec<FboPlan>, ChainError>(ChainError::EmptyChain),
        r matches Ok(v) ==> v@.len() == has_scale@.len() && forall|i: int| 0 <= i < v@.len() ==>
            #[trigger] v@[i] == fbo_plan_spec(i as nat, has_scale@.len() as nat, has_scale@[i], targets@.contains(i as usize)),
{
    let n = has_scale.len();
    if n == 0 {
        return Err(ChainError::EmptyChain);
    }
    let mut out: Vec<FboPlan> = Vec::new();
    let mut i: usize = 0;
    while i < n
        invariant
            n == has_scale@.len(),
            i <= n,
            out@.len() == i,
            forall|j: int| 0 <= j < i ==> #[trigger] out@[j] == fbo_plan_spec(j as nat, n as nat, has_scale@[j], targets@.contains(j as usize)),
        decreases n - i,
    {
        let is_final = i + 1 == n;
        let final_scaled = is_final && has_scale[i];
        let owns = !is_final || final_scaled;
        let target = targets.contains(&i);
        let plan = if target && !owns {
            FboPlan { owns_fbo: true, final_owns_fbo: true, viewport_scale: true, is_feedback_target: true }
        } else {
            FboPlan { owns_fbo: owns, final_owns_fbo: final_scaled, viewport_scale: false, is_feedback_target: target }
        };
        out.push(plan);
        i = i + 1;
    }
    Ok(out)
}

/// Every pass that something reads as feedback owns a framebuffer to keep its
/// output in, and only the final pass can own one as the final pass.
pub proof fn lemma_feedback_targets_own_fbos(i: nat, n: nat, has_scale: bool, target: bool)
    requires
        i < n,
    ensures
        target ==> fbo_plan_spec(i, n, has_scale, target).owns_fbo,
        fbo_plan_spec(i, n, has_scale, target).is_feedback_target == target,
        fbo_plan_spec(i, n, has_scale, target).final_owns_fbo ==> i + 1 == n,
        i + 1 < n ==> fbo_plan_spec(i, n, has_scale, target).owns_fbo,
{
}

/// Which passes are double-buffered for feedback: those the chain asks for
/// explicitly (`flags`) and those some pass's texture reads as feedback. A
/// reference past the chain's end stays in the set; nothing is double-buffered
/// for it.
pub fn feedback_targets(flags: &Vec<bool>, slots: &Vec<Vec<TextureClass>>, aliases: &Vec<Option<String>>) -> (r: HashSet<usize>)
    requires
        aliases@.len() == flags@.len(),
    ensures
        forall|i: usize| #[trigger] r@.contains(i) <==> ((i < flags@.len() && flags@[i as int])
            || feedback_read_before(slots_view(slots@), slots@.len() as int, 0, i as nat, aliases_view(aliases@))),
{
    let ghost sv = slots_view(slots@);
    let ghost av = aliases_view(aliases@);
    let n = flags.len();
    let mut r: HashSet<usize> = HashSet::new();
    let mut k: usize = 0;
    while k < n
        invariant
            n == flags@.len(),
            k <= n,
            forall|i: usize| #[trigger] r@.contains(i) <==> (i < k && flags@[i as int]),
        decreases n - k,
    {
        if flags[k] {
            r.insert(k);
        }
        k = k + 1;
    }
    let mut p: usize = 0;
    while p < slots.len()
        invariant
            n == flags@.len(),
            aliases@.len() == n,
            sv == slots_view(slots@),
            av == aliases_view(aliases@),
            p <= slots@.len(),
            forall|i: usize| #[trigger] r@.contains(i) <==> ((i < n && flags@[i as int]) || feedback_read_before(sv, p as int, 0, i as nat, av)),
        decreases slots@.len() - p,
    {
        let row = &slots[p];
        assert(sv[p as int] == row@.map_values(|c: TextureClass| c@));
        let mut q: usize = 0;
        while q < row.len()
            invariant
                n == flags@.len(),
                aliases@.len() == n,
                sv == slots_view(slots@),
                av == aliases_view(aliases@),
                p < slots@.len(),
                row == &slots@[p as int],
                q <= row@.len(),
                sv[p as int] == row@.map_values(|c: TextureClass| c@),
                forall|i: usize| #[trigger] r@.contains(i) <==> ((i < n && flags@[i as int]) || feedback_read_before(sv, p as int, q as int, i as nat, av)),
            decreases row@.len() - q,
        {
            let ghost before = r@;
            let ghost c = row@[q as int]@;
            assert(c == sv[p as int][q as int]);
            let target: Option<usize> = match &row[q] {
                TextureClass::PassFeedback(t) => Some(*t),
                TextureClass::AliasFeedback(name) => find_alias(aliases, name),
                _ => None,
            };
            assert forall|i: usize|
                (#[trigger] reads_feedback_of(c, i as nat, av) <==> target == Some(i)) by {
                match row@[q as int] {
                    TextureClass::PassFeedback(t) => {
                        assert(c == ClassView::PassFeedback(t as nat));
                    },
                    TextureClass::AliasFeedback(name) => {
                        assert(c == ClassView::AliasFeedback(name@));
                        lemma_first_alias_bound(av, name@);
                    },
                    _ => {},
                }
            }
            match target {
                Some(t) => {
                    r.insert(t);
                },
                None => {},
            }
            assert forall|i: usize| #[trigger] r@.contains(i) == (before.contains(i) || target == Some(i)) by {
            }
            assert forall|i: usize|
                (#[trigger] feedback_read_before(sv, p as int, q + 1, i as nat, av)
                    == (feedback_read_before(sv, p as int, q as int, i as nat, av) || reads_feedback_of(c, i as nat, av))) by {
                if reads_feedback_of(c, i as nat, av) {
                    assert(reads_feedback_of(sv[p as int][q as int], i as nat, av));
                }
                if feedback_read_before(sv, p as int, q + 1, i as nat, av) && !reads_feedback_of(c, i as nat, av) {
                    let (pp, qq) = choose|pp: int, qq: int| 0 <= pp < sv.len() && 0 <= qq < sv[pp].len()
                        && (pp < p || (pp == p && qq < q + 1))
                        && #[trigger] reads_feedback_of(sv[pp][qq], i as nat, av);
                    assert(!(pp == p && qq == q));
                    assert(reads_feedback_of(sv[pp][qq], i as nat, av));
                }
                if feedback_read_before(sv, p as int, q as int, i as nat, av) {
                    let (pp, qq) = choose|pp: int, qq: int| 0 <= pp < sv.len() && 0 <= qq < sv[pp].len()
                        && (pp < p || (pp == p && qq < q))
                        && #[trigger] reads_feedback_of(sv[pp][qq], i as nat, av);
                    assert(reads_feedback_of(sv[pp][qq], i as nat, av));
                }
            }
            assert forall|i: usize| #[trigger] r@.contains(i) <==> ((i < n && flags@[i as int])
                || feedback_read_before(sv, p as int, q + 1, i as nat, av)) by {
                assert(before.contains(i) <==> ((i < n && flags@[i as int]) || feedback_read_before(sv, p as int, q as int, i as nat, av)));
                assert(feedback_read_before(sv, p as int, q + 1, i as nat, av)
                    == (feedback_read_before(sv, p as int, q as int, i as nat, av) || reads_feedback_of(c, i as nat, av)));
                assert(reads_feedback_of(c, i as nat, av) <==> target == Some(i));
            }
            q = q + 1;
        }
        assert forall|i: usize| #[trigger] r@.contains(i) <==> ((i < n && flags@[i as int]) || feedback_read_before(sv, p + 1, 0, i as nat, av)) by {
            assert(r@.contains(i) <==> ((i < n && flags@[i as int]) || feedback_read_before(sv, p as int, row@.len() as int, i as nat, av)));
            if feedback_read_before(sv, p + 1, 0, i as nat, av) {
                let (pp, qq) = choose|pp: int, qq: int| 0 <= pp < sv.len() && 0 <= qq < sv[pp].len()
                    && (pp < p + 1 || (pp == p + 1 && qq < 0))
                    && #[trigger] reads_feedback_of(sv[pp][qq], i as nat, av);
                if pp == p {
                    assert(feedback_read_before(sv, p as int, row@.len() as int, i as nat, av));
                } else {
                    assert(feedback_read_before(sv, p as int, row@.len() as int, i as nat, av));
                }
            }
            if feedback_read_before(sv, p as int, row@.len() as int, i as nat, av) {
                let (pp, qq) = choose|pp: int, qq: int| 0 <= pp < sv.len() && 0 <= qq < sv[pp].len()
                    && (pp < p || (pp == p && qq < row@.len()))
                    && #[trigger] reads_feedback_of(sv[pp][qq], i as nat, av);
                assert(feedback_read_before(sv, p + 1, 0, i as nat, av));
            }
        }
        p = p + 1;
    }
    r
}

/// Push `frame` to the front of the history ring, keeping at most `depth`
/// entries (the oldest leave first); with `depth == 0` history is off and
/// the ring is left alone.
pub fn push_history<T>(ring: &mut VecDeque<T>, frame: T, depth: usize)
    ensures
        depth == 0 ==> final(ring)@ == old(ring)@,
        depth > 0 ==> final(ring)@ == (seq![frame] + old(ring)@).take(
            if old(ring)@.len() + 1 <= depth { (old(ring)@.len() + 1) as int } else { depth as int }),
{
    if depth == 0 {
        return;
    }
    let ghost full = seq![frame] + ring@;
    ring.push_front(frame);
    assert(ring@ =~= full.take(full.len() as int));
    while ring.len() > depth
        invariant
            depth > 0,
            depth <= ring@.len() <= full.len() || ring@.len() <= depth,
            ring@ == full.take(ring@.len() as int),
            ring@.len() <= full.len(),
            full.len() <= depth ==> ring@.len() == full.len(),
            full.len() > depth ==> ring@.len() >= depth,
        decreases ring@.len(),
    {
        let ghost before = ring@;
        let _ = ring.pop_back();
        assert(ring@ =~= full.take(ring@.len() as int));
    }
}

/// Where the view of a sampled texture comes from.
#[derive(Debug, Clone, Copy, PartialEq, Eq, Structural)]
pub enum ViewChoice {
    /// The source image (the chain's `Original`).
    SourceImage,
    /// Pass `n`'s output this frame.
    PassOutput(usize),
    /// Pass `n`'s output from the previous frame.
    PassFeedback(usize),
    /// History ring entry `k` (0 is the newest past frame).
    History(usize),
    /// Registered LUT `k`.
    Lut(usize),
    /// The texture resolver's answer for an unregistered user texture (its
    /// black placeholder when it has none).
    Resolver,
    /// The 1×1 black placeholder.
    Placeholder,
}

/// Which sampler a sampled texture is read with.
#[derive(Debug, Clone, Copy, PartialEq, Eq, Structural)]
pub enum SamplerChoice {
    /// Pass `n`'s sampler.
    Pass(usize),
    /// Registered LUT `k`'s own sampler.
    Lut(usize),
}

/// A texture binding: view and sampler.
#[derive(Debug, Clone, Copy, PartialEq, Eq, Structural)]
pub struct TextureBinding {
    pub view: ViewChoice,
    pub sampler: SamplerChoice,
}

/// What the chain offers to resolve textures against.
#[derive(Debug, Clone)]
pub struct ChainResources {
    /// Per pass: whether it owns an output FBO.
    pub owns_fbo: Vec<bool>,
    /// Per pass: whether it is double-buffered (has a previous-frame output).
    pub has_feedback: Vec<bool>,
    /// Per pass: its alias, if any.
    pub aliases: Vec<Option<String>>,
    /// The number of past source frames in the history ring.
    pub history_len: usize,
    /// The registered LUT names, in registration order.
    pub luts: Vec<String>,
}

impl ChainResources {
    /// The number of passes.
    pub open spec fn pass_count(&self) -> nat {
        self.owns_fbo@.len()
    }

    /// One entry per pass in each per-pass list, and at least one pass.
    pub open spec fn wf(&self) -> bool {
        &&& self.pass_count() >= 1
        &&& self.has_feedback@.len() == self.pass_count()
        &&& self.aliases@.len() == self.pass_count()
    }
}

/// The sampler for a texture produced by pass `n`: pass `n + 1`'s (the
/// consumer of that output), clamped to the last pass.
pub open spec fn sampler_after(n: nat, count: nat) -> SamplerChoice {
    SamplerChoice::Pass(if n + 1 < count { (n + 1) as usize } else { (count - 1) as usize })
}

/// The source image with the source sampler (pass 0's).
pub open spec fn source_binding() -> TextureBinding {
    TextureBinding { view: ViewChoice::SourceImage, sampler: SamplerChoice::Pass(0) }
}

/// The black placeholder with the source sampler.
pub open spec fn placeholder_binding() -> TextureBinding {
    TextureBinding { view: ViewChoice::Placeholder, sampler: SamplerChoice::Pass(0) }
}

/// Pass `n`'s output as seen by pass `pass_index`: only earlier passes that
/// own an FBO are available.
pub open spec fn pass_output_binding(r: ChainResources, n: nat, pass_index: nat) -> Option<TextureBinding> {
    if n < pass_index && n < r.pass_count() && r.owns_fbo@[n as int] {
        Some(TextureBinding { view: ViewChoice::PassOutput(n as usize), sampler: sampler_after(n, r.pass_count()) })
    } else {
        None
    }
}

/// Pass `n`'s previous-frame output, when it is double-buffered (any pass may
/// read any pass's feedback).
pub open spec fn feedback_binding(r: ChainResources, n: nat) -> Option<TextureBinding> {
    if n < r.pass_count() && r.has_feedback@[n as int] {
        Some(TextureBinding { view: ViewChoice::PassFeedback(n as usize), sampler: sampler_after(n, r.pass_count()) })
    } else {
        None
    }
}

/// The binding, or the placeholder when there is none.
pub open spec fn or_placeholder(o: Option<TextureBinding>) -> TextureBinding {
    match o {
        Some(b) => b,
        None => placeholder_binding(),
    }
}

/// The index of the last LUT registered under `name` (a later registration
/// replaces an earlier one).
pub open spec fn last_lut(l: Seq<Seq<char>>, name: Seq<char>) -> Option<nat>
    decreases l.len(),
{
    if l.len() == 0 {
        None
    } else if l.last() == name {
        Some((l.len() - 1) as nat)
    } else {
        last_lut(l.drop_last(), name)
    }
}

/// The LUT names, by content.
pub open spec fn names_view(l: Seq<String>) -> Seq<Seq<char>> {
    l.map_values(|s: String| s@)
}

/// Where texture class `c` sampled by pass `pass_index` comes from. `Source`
/// is the previous pass's output (the source image for pass 0, or when that
/// output is unavailable); `Original` is the source image; outputs and aliases
/// must be causal; feedback may name any pass; `OriginalHistoryK` is ring
/// entry `K - 1`; a LUT is looked up by name. Anything unavailable is the
/// placeholder.
pub open spec fn resolve_spec(r: ChainResources, c: ClassView, pass_index: nat) -> TextureBinding {
    match c {
        ClassView::Source => if pass_index == 0 {
            source_binding()
        } else {
            match pass_output_binding(r, (pass_index - 1) as nat, pass_index) {
                Some(b) => b,
                None => source_binding(),
            }
        },
        ClassView::Original => source_binding(),
        ClassView::PassOutput(n) => or_placeholder(pass_output_binding(r, n, pass_index)),
        ClassView::Alias(name) => match first_alias(aliases_view(r.aliases@), name) {
            Some(n) => or_placeholder(pass_output_binding(r, n, pass_index)),
            None => placeholder_binding(),
        },
        ClassView::PassFeedback(n) => or_placeholder(feedback_binding(r, n)),
        ClassView::AliasFeedback(name) => match first_alias(aliases_view(r.aliases@), name) {
            Some(n) => or_placeholder(feedback_binding(r, n)),
            None => placeholder_binding(),
        },
        ClassView::OriginalHistory(k) => {
            let idx: nat = if k >= 1 { (k - 1) as nat } else { 0 };
            if idx < r.history_len {
                TextureBinding { view: ViewChoice::History(idx as usize), sampler: SamplerChoice::Pass(0) }
            } else {
                placeholder_binding()
            }
        },
        ClassView::Lut(name) => match last_lut(names_view(r.luts@), name) {
            Some(k) => TextureBinding { view: ViewChoice::Lut(k as usize), sampler: SamplerChoice::Lut(k as usize) },
            None => TextureBinding { view: ViewChoice::Resolver, sampler: SamplerChoice::Pass(0) },
        },
    }
}

proof fn lemma_last_lut_bound(l: Seq<Seq<char>>, name: Seq<char>)
    ensures
        last_lut(l, name) matches Some(k) ==> k < l.len(),
    decreases l.len(),
{
    if l.len() > 0 {
        lemma_last_lut_bound(l.drop_last(), name);
    }
}

/// [`pass_output_binding`].
fn pass_output(r: &ChainResources, n: usize, pass_index: usize) -> (b: Option<TextureBinding>)
    requires
        r.wf(),
    ensures
        b == pass_output_binding(*r, n as nat, pass_index as nat),
{
    if n < pass_index && n < r.owns_fbo.len() && r.owns_fbo[n] {
        let count = r.owns_fbo.len();
        let s = if n + 1 < count { n + 1 } else { count - 1 };
        Some(TextureBinding { view: ViewChoice::PassOutput(n), sampler: SamplerChoice::Pass(s) })
    } else {
        None
    }
}

/// [`feedback_binding`].
fn feedback(r: &ChainResources, n: usize) -> (b: Option<TextureBinding>)
    requires
        r.wf(),
    ensures
        b == feedback_binding(*r, n as nat),
{
    if n < r.has_feedback.len() && r.has_feedback[n] {
        let count = r.owns_fbo.len();
        let s = if n < count - 1 { n + 1 } else { count - 1 };
        Some(TextureBinding { view: ViewChoice::PassFeedback(n), sampler: SamplerChoice::Pass(s) })
    } else {
        None
    }
}

/// The index of the last LUT registered under `name` (see [`last_lut`]).
pub fn find_lut(luts: &Vec<String>, name: &String) -> (r: Option<usize>)
    ensures
        match r {
            Some(k) => last_lut(names_view(luts@), name@) == Some(k as nat),
            None => last_lut(names_view(luts@), name@) is None,
        },
{
    proof { lemma_last_lut_bound(names_view(luts@), name@); }
    let ghost l = names_view(luts@);
    let target = chars_of_string(name);
    let mut j = luts.len();
    assert(l.take(j as int) =~= l);
    while j > 0
        invariant
            j <= luts@.len(),
            l == names_view(luts@),
            target@ == name@,
            last_lut(l, name@) == last_lut(l.take(j as int), name@),
        decreases j,
    {
        assert(l.take(j as int).drop_last() =~= l.take(j - 1));
        let c = chars_of_string(&luts[j - 1]);
        if vec_eq(&c, &target) {
            return Some(j - 1);
        }
        j = j - 1;
    }
    None
}

/// Where a texture of class `class` sampled by pass `pass_index` comes from,
/// and which sampler reads it (see [`resolve_spec`]).
pub fn resolve_texture(r: &ChainResources, class: &TextureClass, pass_index: usize) -> (b: TextureBinding)
    requires
        r.wf(),
    ensures
        b == resolve_spec(*r, class@, pass_index as nat),
{
    let placeholder = TextureBinding { view: ViewChoice::Placeholder, sampler: SamplerChoice::Pass(0) };
    let source = TextureBinding { view: ViewChoice::SourceImage, sampler: SamplerChoice::Pass(0) };
    match class {
        TextureClass::Source => {
            if pass_index == 0 {
                source
            } else {
                let prev = pass_index - 1;
                assert(prev as nat == (pass_index as nat - 1) as nat);
                match pass_output(r, prev, pass_index) {
                    Some(b) => b,
                    None => source,
                }
            }
        },
        TextureClass::Original => source,
        TextureClass::PassOutput(n) => match pass_output(r, *n, pass_index) {
            Some(b) => b,
            None => placeholder,
        },
        TextureClass::Alias(name) => match find_alias(&r.aliases, name) {
            Some(n) => match pass_output(r, n, pass_index) {
                Some(b) => {
                    assert(class@ == ClassView::Alias(name@));
                    assert(first_alias(aliases_view(r.aliases@), name@) == Some(n as nat));
                    b
                },
                None => placeholder,
            },
            None => placeholder,
        },
        TextureClass::PassFeedback(n) => match feedback(r, *n) {
            Some(b) => b,
            None => placeholder,
        },
        TextureClass::AliasFeedback(name) => match find_alias(&r.aliases, name) {
            Some(n) => match feedback(r, n) {
                Some(b) => b,
                None => placeholder,
            },
            None => placeholder,
        },
        TextureClass::OriginalHistory(k) => {
            let idx = if *k >= 1 { *k - 1 } else { 0 };
            if idx < r.history_len {
                TextureBinding { view: ViewChoice::History(idx), sampler: SamplerChoice::Pass(0) }
            } else {
                placeholder
            }
        },
        TextureClass::Lut(name) => match find_lut(&r.luts, name) {
            Some(k) => TextureBinding { view: ViewChoice::Lut(k), sampler: SamplerChoice::Lut(k) },
            None => TextureBinding { view: ViewChoice::Resolver, sampler: SamplerChoice::Pass(0) },
        },
    }
}

/// Pass outputs are causal: a texture resolved for pass `i` reads a pass's
/// current-frame output only when that pass runs before `i` and owns an FBO,
/// and a pass's output is always read with the sampler of the pass after it
/// (the last pass's own for the last pass).
pub proof fn lemma_resolve_causal(r: ChainResources, c: ClassView, pass_index: nat)
    requires
        r.wf(),
        r.pass_count() <= usize::MAX,
    ensures
        resolve_spec(r, c, pass_index).view matches ViewChoice::PassOutput(n) ==> {
            &&& (n as nat) < pass_index
            &&& r.owns_fbo@[n as int]
            &&& resolve_spec(r, c, pass_index).sampler == sampler_after(n as nat, r.pass_count())
        },
        resolve_spec(r, c, pass_index).view matches ViewChoice::PassFeedback(n) ==> {
            &&& (n as nat) < r.pass_count()
            &&& r.has_feedback@[n as int]
        },
        c == ClassView::Original ==> resolve_spec(r, c, pass_index) == source_binding(),
{
    match c {
        ClassView::Source => {},
        ClassView::PassOutput(n) => {},
        ClassView::Alias(name) => {
            lemma_first_alias_bound(aliases_view(r.aliases@), name);
        },
        ClassView::PassFeedback(n) => {},
        ClassView::AliasFeedback(name) => {
            lemma_first_alias_bound(aliases_view(r.aliases@), name);
        },
        _ => {},
    }
}

} // verus!
