//! Turning a push-constant block into an ordinary uniform buffer at a free
//! `(set = 0, binding)`.
//!
//! The rewrite changes the storage class of every `PushConstant` pointer type
//! and variable to `Uniform`, and decorates each former push-constant variable
//! with `DescriptorSet 0` and a binding. The binding is chosen once for both
//! stages of a shader (the lowest one free in the union of their set-0
//! bindings) so the block lands at the same binding in each stage.

use vstd::prelude::*;
use std::collections::HashSet;
use crate::spirv_model::{OperandVal, SpirvInst, SpirvModel, InstView, insts_view, spirv_load,
    load_spirv, load_module, insts_of_range, insts_of, OperandKind, PlainInst, PlainView, ModuleView, OperandWords,
    plain_view, operands_view, ops_with_first, encode_inst, encode_insts, encode_parts, encode_plain, append_words, module_words,
    opt_words, spirv_load_module, globals_start, globals_end, annotations_start, STORAGE_UNIFORM, OP_DECORATE, OP_VARIABLE, OP_TYPE_POINTER, DECORATION_BINDING,
    DECORATION_DESCRIPTOR_SET, STORAGE_PUSH_CONSTANT};

verus! {

broadcast use vstd::std_specs::hash::group_hash_axioms;

/// Errors from the push-constant rewrite.
#[derive(Debug)]
pub enum PushToUboError {
    /// The input words were not parseable SPIR-V (truncated, wrong magic, ...).
    Parse(String),
    /// Counting bindings upward from the target ran past the last 32-bit
    /// binding before every push-constant variable had one.
    BindingsExhausted,
}

/// `(target, decoration, literal)` of an `OpDecorate <id> <decoration>
/// <literal>` instruction.
pub open spec fn decorate_entry(i: InstView) -> Option<(u32, u32, u32)> {
    if i.0 == OP_DECORATE && i.3.len() >= 3 {
        match (i.3[0], i.3[1], i.3[2]) {
            (OperandVal::IdRef(t), OperandVal::Decoration(k), OperandVal::LiteralBit32(v)) => Some((t, k, v)),
            _ => None,
        }
    } else {
        None
    }
}

/// The literal of the last `OpDecorate t k <literal>` in `a`.
pub open spec fn last_deco(a: Seq<InstView>, t: u32, k: u32) -> Option<u32>
    decreases a.len(),
{
    if a.len() == 0 {
        None
    } else {
        match decorate_entry(a.last()) {
            Some((t2, k2, v)) => if t2 == t && k2 == k { Some(v) } else { last_deco(a.drop_last(), t, k) },
            None => last_deco(a.drop_last(), t, k),
        }
    }
}

/// Whether `t` is in descriptor set 0: decorated `DescriptorSet 0`, or not
/// decorated with a set at all.
pub open spec fn in_set0(a: Seq<InstView>, t: u32) -> bool {
    last_deco(a, t, DECORATION_DESCRIPTOR_SET) is None
        || last_deco(a, t, DECORATION_DESCRIPTOR_SET) == Some(0u32)
}

/// The set-0 bindings the annotations `a` use: every target's (last) `Binding`
/// literal, for targets in set 0.
pub open spec fn set0_bindings(a: Seq<InstView>) -> Set<u32> {
    Set::new(|b: u32| exists|t: u32| #[trigger] last_deco(a, t, DECORATION_BINDING) == Some(b) && in_set0(a, t))
}

/// `b` is the lowest binding not in `used`.
pub open spec fn lowest_free_spec(used: Set<u32>, b: u32) -> bool {
    !used.contains(b) && forall|x: u32| x < b ==> used.contains(x)
}

proof fn lemma_last_deco_witness(a: Seq<InstView>, t: u32, k: u32)
    ensures
        forall|v: u32| last_deco(a, t, k) == Some(v) ==>
            exists|idx: int| 0 <= idx < a.len() && decorate_entry(#[trigger] a[idx]) == Some((t, k, v)),
    decreases a.len(),
{
    if a.len() > 0 {
        lemma_last_deco_witness(a.drop_last(), t, k);
        assert forall|v: u32| last_deco(a, t, k) == Some(v) implies
            exists|idx: int| 0 <= idx < a.len() && decorate_entry(#[trigger] a[idx]) == Some((t, k, v)) by {
            match decorate_entry(a.last()) {
                Some((t2, k2, w)) => {
                    if t2 == t && k2 == k {
                        assert(decorate_entry(a[a.len() - 1]) == Some((t, k, v)));
                    } else {
                        let idx = choose|idx: int| 0 <= idx < a.drop_last().len()
                            && decorate_entry(#[trigger] a.drop_last()[idx]) == Some((t, k, v));
                        assert(a[idx] == a.drop_last()[idx]);
                    }
                },
                None => {
                    let idx = choose|idx: int| 0 <= idx < a.drop_last().len()
                        && decorate_entry(#[trigger] a.drop_last()[idx]) == Some((t, k, v));
                    assert(a[idx] == a.drop_last()[idx]);
                },
            }
        }
    }
}

/// The `OpDecorate` entry of an instruction, if it has that shape.
pub(crate) fn entry_of(i: &SpirvInst) -> (r: Option<(u32, u32, u32)>)
    ensures
        r == decorate_entry(i@),
{
    if i.opcode == OP_DECORATE && i.operands.len() >= 3 {
        match (i.operands[0], i.operands[1], i.operands[2]) {
            (OperandVal::IdRef(t), OperandVal::Decoration(k), OperandVal::LiteralBit32(v)) => Some((t, k, v)),
            _ => None,
        }
    } else {
        None
    }
}

/// The literal of the last `OpDecorate t k <literal>` in `a`.
pub(crate) fn last_deco_exec(a: &Vec<SpirvInst>, t: u32, k: u32) -> (r: Option<u32>)
    ensures
        r == last_deco(insts_view(a@), t, k),
{
    let ghost all = insts_view(a@);
    let mut j = a.len();
    assert(all.take(j as int) =~= all);
    while j > 0
        invariant
            j <= a@.len(),
            all == insts_view(a@),
            last_deco(all, t, k) == last_deco(all.take(j as int), t, k),
        decreases j,
    {
        let ghost s = all.take(j as int);
        assert(s.drop_last() =~= all.take(j - 1));
        assert(s.last() == a@[j - 1]@);
        match entry_of(&a[j - 1]) {
            Some((t2, k2, v)) => {
                if t2 == t && k2 == k {
                    return Some(v);
                }
            },
            None => {},
        }
        j = j - 1;
    }
    None
}

/// Whether annotation `idx` of `a` contributes binding `b` to
/// [`set0_bindings`].
spec fn contributes(a: Seq<InstView>, idx: int, b: u32) -> bool {
    match decorate_entry(a[idx]) {
        Some((t, k, v)) => k == DECORATION_BINDING && v == b
            && last_deco(a, t, DECORATION_BINDING) == Some(b) && in_set0(a, t),
        None => false,
    }
}

/// Add the set-0 bindings of `annotations` to `used`.
fn add_set0_bindings(annotations: &Vec<SpirvInst>, used: &mut HashSet<u32>)
    ensures
        final(used)@ == old(used)@.union(set0_bindings(insts_view(annotations@))),
{
    let ghost a = insts_view(annotations@);
    let ghost start = used@;
    let mut i: usize = 0;
    while i < annotations.len()
        invariant
            i <= annotations@.len(),
            a == insts_view(annotations@),
            used@ == start.union(Set::new(|b: u32| exists|idx: int| 0 <= idx < i && #[trigger] contributes(a, idx, b))),
        decreases annotations@.len() - i,
    {
        let ghost before = used@;
        assert(a[i as int] == annotations@[i as int]@);
        match entry_of(&annotations[i]) {
            Some((t, k, v)) => {
                if k == DECORATION_BINDING {
                    match last_deco_exec(annotations, t, DECORATION_BINDING) {
                        Some(lb) => {
                            if lb == v {
                                let set_ok = match last_deco_exec(annotations, t, DECORATION_DESCRIPTOR_SET) {
                                    Some(s) => s == 0,
                                    None => true,
                                };
                                if set_ok {
                                    used.insert(v);
                                }
                            }
                        },
                        None => {},
                    }
                }
            },
            None => {},
        }
        assert(used@ =~= start.union(Set::new(|b: u32| exists|idx: int| 0 <= idx < i + 1 && #[trigger] contributes(a, idx, b)))) by {
            assert forall|b: u32| used@.contains(b) implies
                start.union(Set::new(|b: u32| exists|idx: int| 0 <= idx < i + 1 && #[trigger] contributes(a, idx, b))).contains(b) by {
                if !before.contains(b) {
                    assert(contributes(a, i as int, b));
                }
            }
            assert forall|b: u32| start.union(Set::new(|b: u32| exists|idx: int| 0 <= idx < i + 1 && #[trigger] contributes(a, idx, b))).contains(b)
                implies used@.contains(b) by {
                if !start.contains(b) {
                    let idx = choose|idx: int| 0 <= idx < i + 1 && #[trigger] contributes(a, idx, b);
                    if idx < i {
                        assert(before.contains(b));
                    }
                }
            }
        }
        i = i + 1;
    }
    assert(used@ =~= start.union(set0_bindings(a))) by {
        assert forall|b: u32| set0_bindings(a).contains(b) implies
            (exists|idx: int| 0 <= idx < annotations@.len() && #[trigger] contributes(a, idx, b)) by {
            let t = choose|t: u32| #[trigger] last_deco(a, t, DECORATION_BINDING) == Some(b) && in_set0(a, t);
            lemma_last_deco_witness(a, t, DECORATION_BINDING);
            let idx = choose|idx: int| 0 <= idx < a.len() && decorate_entry(#[trigger] a[idx]) == Some((t, DECORATION_BINDING, b));
            assert(contributes(a, idx, b));
        }
        assert forall|b: u32| (exists|idx: int| 0 <= idx < annotations@.len() && #[trigger] contributes(a, idx, b))
            implies set0_bindings(a).contains(b) by {
            let idx = choose|idx: int| 0 <= idx < annotations@.len() && #[trigger] contributes(a, idx, b);
            match decorate_entry(a[idx]) {
                Some((t, k, v)) => {
                    assert(last_deco(a, t, DECORATION_BINDING) == Some(b) && in_set0(a, t));
                },
                None => {},
            }
        }
    }
}

/// Every binding literal decorated in descriptor set 0 (a target without a
/// `DescriptorSet` decoration is in set 0). When a target is decorated more
/// than once, its last decoration counts.
pub fn used_set0_bindings(annotations: &Vec<SpirvInst>) -> (used: HashSet<u32>)
    ensures
        used@ == set0_bindings(insts_view(annotations@)),
{
    let mut used: HashSet<u32> = HashSet::new();
    add_set0_bindings(annotations, &mut used);
    assert(used@ =~= set0_bindings(insts_view(annotations@)));
    used
}

/// The lowest binding not present in `used` (some binding must be free).
pub fn lowest_free(used: &HashSet<u32>) -> (b: u32)
    requires
        exists|x: u32| !used@.contains(x),
    ensures
        lowest_free_spec(used@, b),
{
    let mut b: u32 = 0;
    while used.contains(&b)
        invariant
            exists|x: u32| !used@.contains(x),
            forall|x: u32| x < b ==> used@.contains(x),
        decreases u32::MAX - b,
    {
        if b == u32::MAX {
            proof {
                let x = choose|x: u32| !used@.contains(x);
                assert(x <= b);
            }
            return b;
        }
        b = b + 1;
    }
    b
}

/// The lowest binding not present in `used`, or `None` when every binding is.
pub fn first_free(used: &HashSet<u32>) -> (r: Option<u32>)
    ensures
        match r {
            Some(b) => lowest_free_spec(used@, b),
            None => forall|x: u32| used@.contains(x),
        },
{
    let mut b: u64 = 0;
    while b <= 0xffff_ffff && used.contains(&(b as u32))
        invariant
            b <= 0x1_0000_0000,
            forall|x: u32| x < b ==> used@.contains(x),
        decreases 0x1_0000_0000 - b,
    {
        b = b + 1;
    }
    if b > 0xffff_ffff {
        None
    } else {
        Some(b as u32)
    }
}

/// The set-0 bindings of one stage's SPIR-V (none when it does not load).
pub open spec fn stage_bindings(words: Seq<u32>) -> Set<u32> {
    match spirv_load(words) {
        Ok((a, _)) => set0_bindings(a),
        Err(_) => Set::empty(),
    }
}

/// The set-0 bindings used by any of the stages.
pub open spec fn stages_used(ss: Seq<Seq<u32>>) -> Set<u32>
    decreases ss.len(),
{
    if ss.len() == 0 {
        Set::empty()
    } else {
        stages_used(ss.drop_last()).union(stage_bindings(ss.last()))
    }
}

/// The word streams of the stages.
pub open spec fn stages_view(stages: &[&[u32]]) -> Seq<Seq<u32>> {
    stages@.map_values(|s: &[u32]| s@)
}

/// The set-0 bindings used across the stages.
fn used_across(stages: &[&[u32]]) -> (used: HashSet<u32>)
    ensures
        used@ == stages_used(stages_view(stages)),
{
    let ghost ss = stages_view(stages);
    let mut used: HashSet<u32> = HashSet::new();
    let mut i: usize = 0;
    assert(ss.take(0) =~= Seq::<Seq<u32>>::empty());
    assert(used@ =~= stages_used(ss.take(0)));
    while i < stages.len()
        invariant
            i <= stages@.len(),
            ss == stages_view(stages),
            used@ == stages_used(ss.take(i as int)),
        decreases stages@.len() - i,
    {
        assert(ss.take(i + 1).drop_last() =~= ss.take(i as int));
        assert(ss.take(i + 1).last() == stages[i as int]@);
        match load_spirv(stages[i]) {
            Ok(m) => {
                add_set0_bindings(&m.annotations, &mut used);
            },
            Err(_) => {
                assert(used@ =~= used@.union(Set::<u32>::empty()));
            },
        }
        i = i + 1;
    }
    assert(ss.take(stages@.len() as int) =~= ss);
    used
}

/// The lowest set-0 binding free across the given stages' SPIR-V, so a block
/// rewritten to it lands at the same binding in every stage. A stage whose
/// words fail to load contributes no bindings. Some binding must be free.
pub fn free_binding_across(stages: &[&[u32]]) -> (b: u32)
    requires
        exists|x: u32| !stages_used(stages_view(stages)).contains(x),
    ensures
        lowest_free_spec(stages_used(stages_view(stages)), b),
{
    let used = used_across(stages);
    lowest_free(&used)
}

/// [`free_binding_across`], or `None` when the stages use every binding.
pub fn try_free_binding_across(stages: &[&[u32]]) -> (r: Option<u32>)
    ensures
        match r {
            Some(b) => lowest_free_spec(stages_used(stages_view(stages)), b),
            None => forall|x: u32| stages_used(stages_view(stages)).contains(x),
        },
{
    let used = used_across(stages);
    match first_free(&used) {
        Some(_) => Some(free_binding_across(stages)),
        None => None,
    }
}

/// The first operand of `i` is the `PushConstant` storage class.
pub open spec fn is_push_class(i: InstView) -> bool {
    i.3.len() > 0 && i.3[0] == OperandVal::StorageClass(STORAGE_PUSH_CONSTANT)
}

/// The result ids of the push-constant variables among the globals `g`.
pub open spec fn push_vars(g: Seq<InstView>) -> Seq<u32>
    decreases g.len(),
{
    if g.len() == 0 {
        Seq::empty()
    } else {
        let p = push_vars(g.drop_last());
        let i = g.last();
        if i.0 == OP_VARIABLE && is_push_class(i) && i.2 is Some {
            p.push(i.2->0)
        } else {
            p
        }
    }
}

/// The indices of the globals `g` to retype from `PushConstant` to
/// `Uniform`: pointer types and variables in that storage class.
pub open spec fn retype_indices(g: Seq<InstView>) -> Seq<usize>
    decreases g.len(),
{
    if g.len() == 0 {
        Seq::empty()
    } else {
        let p = retype_indices(g.drop_last());
        let i = g.last();
        if (i.0 == OP_TYPE_POINTER || i.0 == OP_VARIABLE) && is_push_class(i) {
            p.push((g.len() - 1) as usize)
        } else {
            p
        }
    }
}

/// The first binding at or after `b` not in `used` (`2^32` when none is).
pub open spec fn next_unused(used: Set<u32>, b: int) -> int
    decreases 0x1_0000_0000 - b,
{
    if b < 0 || b >= 0x1_0000_0000 {
        b
    } else if used.contains(b as u32) {
        next_unused(used, b + 1)
    } else {
        b
    }
}

/// The bindings given to `n` variables, counting from `start`: each is the
/// first unused one after the previous (the first, the first unused at or
/// after `start`).
pub open spec fn allocation(used: Set<u32>, start: int, n: nat) -> Seq<int>
    decreases n,
{
    if n == 0 {
        Seq::empty()
    } else {
        let b = next_unused(used, start);
        seq![b] + allocation(used, b + 1, (n - 1) as nat)
    }
}

/// Where the allocation of `n` bindings from `start` leaves the counter: the
/// first unused binding after the last one given.
pub open spec fn allocation_end(used: Set<u32>, start: int, n: nat) -> int
    decreases n,
{
    if n == 0 {
        next_unused(used, start)
    } else {
        allocation_end(used, next_unused(used, start) + 1, (n - 1) as nat)
    }
}

proof fn lemma_next_unused(used: Set<u32>, b: int)
    requires
        0 <= b,
    ensures
        b <= next_unused(used, b),
        next_unused(used, b) < 0x1_0000_0000 ==> !used.contains(next_unused(used, b) as u32),
        b < 0x1_0000_0000 ==> next_unused(used, b) <= 0x1_0000_0000,
    decreases 0x1_0000_0000 - b,
{
    if b < 0x1_0000_0000 && used.contains(b as u32) {
        lemma_next_unused(used, b + 1);
    }
}

proof fn lemma_allocation(used: Set<u32>, start: int, n: nat)
    requires
        0 <= start,
    ensures
        allocation(used, start, n).len() == n,
        forall|k: int| 0 <= k < n ==> start <= #[trigger] allocation(used, start, n)[k] < allocation_end(used, start, n),
        start <= allocation_end(used, start, n),
    decreases n,
{
    lemma_next_unused(used, start);
    if n > 0 {
        let b = next_unused(used, start);
        lemma_allocation(used, b + 1, (n - 1) as nat);
        assert forall|k: int| 0 <= k < n implies start <= #[trigger] allocation(used, start, n)[k] < allocation_end(used, start, n) by {
            if k > 0 {
                assert(allocation(used, start, n)[k] == allocation(used, b + 1, (n - 1) as nat)[k - 1]);
            }
        }
    }
}

/// The first binding at or after `b` not in `used`, or `2^32` when none is.
fn next_unused_exec(used: &HashSet<u32>, b: u64) -> (r: u64)
    requires
        b <= 0x1_0000_0000,
    ensures
        r == next_unused(used@, b as int),
        b <= r <= 0x1_0000_0000,
{
    let mut c = b;
    while c < 0x1_0000_0000 && used.contains(&(c as u32))
        invariant
            b <= c <= 0x1_0000_0000,
            next_unused(used@, b as int) == next_unused(used@, c as int),
        decreases 0x1_0000_0000 - c,
    {
        c = c + 1;
    }
    c
}

/// Where allocating `i` bindings from `start` resumes counting.
pub open spec fn allocation_start(used: Set<u32>, start: int, i: nat) -> int
    decreases i,
{
    if i == 0 {
        start
    } else {
        allocation_start(used, next_unused(used, start) + 1, (i - 1) as nat)
    }
}

proof fn lemma_allocation_split(used: Set<u32>, start: int, i: nat, n: nat)
    requires
        0 <= start,
        i <= n,
    ensures
        0 <= allocation_start(used, start, i),
        allocation(used, start, n)
            =~= allocation(used, start, i) + allocation(used, allocation_start(used, start, i), (n - i) as nat),
        allocation_end(used, start, n)
            == allocation_end(used, allocation_start(used, start, i), (n - i) as nat),
        i < n ==> allocation_start(used, start, i + 1)
            == next_unused(used, allocation_start(used, start, i)) + 1,
    decreases i,
{
    lemma_next_unused(used, start);
    lemma_allocation(used, start, i);
    let b = next_unused(used, start);
    if i > 0 {
        lemma_allocation_split(used, b + 1, (i - 1) as nat, (n - 1) as nat);
        assert(allocation_start(used, start, i + 1) == allocation_start(used, b + 1, i as nat));
    } else {
        assert(allocation_start(used, start, 1) == allocation_start(used, b + 1, 0));
    }
}

/// The bindings for `n` variables counting from `start` (see [`allocation`]),
/// or `None` when the counting would run past the last 32-bit binding.
pub fn allocate_bindings(used: &HashSet<u32>, start: u32, n: usize) -> (r: Option<Vec<u32>>)
    ensures
        match r {
            Some(v) => allocation_end(used@, start as int, n as nat) < 0x1_0000_0000
                && v@.len() == n
                && forall|k: int| 0 <= k < n ==> v@[k] as int == #[trigger] allocation(used@, start as int, n as nat)[k],
            None => allocation_end(used@, start as int, n as nat) >= 0x1_0000_0000,
        },
{
    let mut out: Vec<u32> = Vec::new();
    let mut next = next_unused_exec(used, start as u64);
    let mut i: usize = 0;
    proof { lemma_allocation(used@, start as int, n as nat); }
    while i < n
        invariant
            i <= n,
            out@.len() == i,
            next <= 0x1_0000_0000,
            0 <= allocation_start(used@, start as int, i as nat),
            next == next_unused(used@, allocation_start(used@, start as int, i as nat)),
            forall|k: int| 0 <= k < i ==> out@[k] as int == #[trigger] allocation(used@, start as int, n as nat)[k],
        decreases n - i,
    {
        let ghost si = allocation_start(used@, start as int, i as nat);
        proof {
            lemma_allocation_split(used@, start as int, i as nat, n as nat);
            lemma_allocation(used@, start as int, i as nat);
            lemma_next_unused(used@, si);
            assert(allocation(used@, start as int, n as nat)[i as int]
                == allocation(used@, si, (n - i) as nat)[0]);
        }
        if next >= 0xffff_ffff {
            proof {
                lemma_allocation(used@, next as int + 1, (n - i - 1) as nat);
            }
            return None;
        }
        out.push(next as u32);
        next = next_unused_exec(used, next + 1);
        i = i + 1;
    }
    proof { lemma_allocation_split(used@, start as int, n as nat, n as nat); }
    if next >= 0x1_0000_0000 {
        return None;
    }
    Some(out)
}

/// The edits that turn a module's push-constant block into a uniform buffer.
#[derive(Debug, Clone, PartialEq, Eq)]
pub struct PushRewrite {
    /// Indices into the globals section of the pointer types and variables
    /// whose storage class goes from `PushConstant` to `Uniform`, ascending.
    pub retype: Vec<usize>,
    /// `(variable, binding)`: each former push-constant variable, in module
    /// order, with the binding it is decorated with (in descriptor set 0).
    pub decorations: Vec<(u32, u32)>,
}

/// What to do with one stage's SPIR-V.
#[derive(Debug, Clone, PartialEq, Eq)]
pub enum PushPlan {
    /// There is no push-constant variable: the words stay as they are.
    Unchanged,
    /// Apply these edits.
    Rewrite(PushRewrite),
    /// Counting bindings upward from the target ran past the last 32-bit
    /// binding before every variable had one.
    BindingsExhausted,
}

/// `plan` is the plan for the module with annotations `a` and globals `g`,
/// whose push-constant variables get bindings counted from `target`.
pub open spec fn plan_matches(plan: PushPlan, a: Seq<InstView>, g: Seq<InstView>, target: u32) -> bool {
    let vars = push_vars(g);
    let used = set0_bindings(a);
    match plan {
        PushPlan::Unchanged => vars.len() == 0,
        PushPlan::Rewrite(p) => {
            &&& vars.len() > 0
            &&& allocation_end(used, target as int, vars.len()) < 0x1_0000_0000
            &&& p.retype@ == retype_indices(g)
            &&& p.decorations@.len() == vars.len()
            &&& forall|k: int| 0 <= k < vars.len() ==> (#[trigger] p.decorations@[k]).0 == vars[k]
                    && p.decorations@[k].1 as int == allocation(used, target as int, vars.len())[k]
        },
        PushPlan::BindingsExhausted => vars.len() > 0
            && allocation_end(used, target as int, vars.len()) >= 0x1_0000_0000,
    }
}

/// The result ids of the push-constant variables among `globals`.
fn push_vars_exec(globals: &Vec<SpirvInst>) -> (v: Vec<u32>)
    ensures
        v@ == push_vars(insts_view(globals@)),
{
    let ghost g = insts_view(globals@);
    let mut v: Vec<u32> = Vec::new();
    let mut i: usize = 0;
    assert(g.take(0) =~= Seq::<InstView>::empty());
    while i < globals.len()
        invariant
            i <= globals@.len(),
            g == insts_view(globals@),
            v@ == push_vars(g.take(i as int)),
        decreases globals@.len() - i,
    {
        assert(g.take(i + 1).drop_last() =~= g.take(i as int));
        assert(g.take(i + 1).last() == globals@[i as int]@);
        let inst = &globals[i];
        let push = inst.operands.len() > 0 && inst.operands[0] == OperandVal::StorageClass(STORAGE_PUSH_CONSTANT);
        if inst.opcode == OP_VARIABLE && push {
            match inst.result_id {
                Some(id) => { v.push(id); },
                None => {},
            }
        }
        i = i + 1;
    }
    assert(g.take(globals@.len() as int) =~= g);
    v
}

/// The indices of the globals to retype (see [`retype_indices`]).
fn retype_exec(globals: &Vec<SpirvInst>) -> (v: Vec<usize>)
    ensures
        v@ == retype_indices(insts_view(globals@)),
{
    let ghost g = insts_view(globals@);
    let mut v: Vec<usize> = Vec::new();
    let mut i: usize = 0;
    assert(g.take(0) =~= Seq::<InstView>::empty());
    while i < globals.len()
        invariant
            i <= globals@.len(),
            g == insts_view(globals@),
            v@ == retype_indices(g.take(i as int)),
        decreases globals@.len() - i,
    {
        assert(g.take(i + 1).drop_last() =~= g.take(i as int));
        assert(g.take(i + 1).last() == globals@[i as int]@);
        let inst = &globals[i];
        let push = inst.operands.len() > 0 && inst.operands[0] == OperandVal::StorageClass(STORAGE_PUSH_CONSTANT);
        if (inst.opcode == OP_TYPE_POINTER || inst.opcode == OP_VARIABLE) && push {
            v.push(i);
        }
        i = i + 1;
    }
    assert(g.take(globals@.len() as int) =~= g);
    v
}

/// Plan the rewrite of a loaded module's push-constant block: nothing to do
/// without a push-constant variable; otherwise retype every `PushConstant`
/// pointer type and variable to `Uniform`, and give the variables bindings
/// counted upward from `target_binding`, skipping the module's own set-0
/// bindings.
pub fn plan_push_rewrite(model: &SpirvModel, target_binding: u32) -> (plan: PushPlan)
    ensures
        plan_matches(plan, insts_view(model.annotations@), insts_view(model.globals@), target_binding),
{
    let vars = push_vars_exec(&model.globals);
    if vars.len() == 0 {
        return PushPlan::Unchanged;
    }
    let used = used_set0_bindings(&model.annotations);
    match allocate_bindings(&used, target_binding, vars.len()) {
        None => PushPlan::BindingsExhausted,
        Some(bindings) => {
            let retype = retype_exec(&model.globals);
            let mut decorations: Vec<(u32, u32)> = Vec::new();
            let mut k: usize = 0;
            while k < vars.len()
                invariant
                    k <= vars@.len(),
                    bindings@.len() == vars@.len(),
                    decorations@.len() == k,
                    forall|j: int| 0 <= j < k ==> #[trigger] decorations@[j] == (vars@[j], bindings@[j]),
                decreases vars@.len() - k,
            {
                decorations.push((vars[k], bindings[k]));
                k = k + 1;
            }
            PushPlan::Rewrite(PushRewrite { retype, decorations })
        },
    }
}

/// Plan the push-constant rewrite of one stage's SPIR-V words (see
/// [`plan_push_rewrite`]); words that do not load are a
/// [`PushToUboError::Parse`] error carrying the loader's message.
pub fn push_constant_plan(words: &[u32], target_binding: u32) -> (r: Result<PushPlan, PushToUboError>)
    ensures
        match spirv_load(words@) {
            Ok((a, g)) => r matches Ok(plan) && plan_matches(plan, a, g, target_binding),
            Err(e) => r matches Err(PushToUboError::Parse(m)) && m@ == e,
        },
{
    match load_spirv(words) {
        Ok(model) => Ok(plan_push_rewrite(&model, target_binding)),
        Err(e) => Err(PushToUboError::Parse(e)),
    }
}

/// When the allocation fits in 32 bits, every binding it gives is unused, and
/// the bindings strictly increase (so no two variables share one).
pub proof fn lemma_allocation_fresh(used: Set<u32>, start: u32, n: nat)
    requires
        allocation_end(used, start as int, n) < 0x1_0000_0000,
    ensures
        forall|k: int| 0 <= k < n ==> !used.contains(#[trigger] allocation(used, start as int, n)[k] as u32),
        forall|j: int, k: int| 0 <= j < k < n ==>
            #[trigger] allocation(used, start as int, n)[j] < #[trigger] allocation(used, start as int, n)[k],
        forall|k: int| 0 <= k < n ==> start <= #[trigger] allocation(used, start as int, n)[k] < 0x1_0000_0000,
{
    lemma_allocation_fresh_from(used, start as int, n);
}

proof fn lemma_allocation_fresh_from(used: Set<u32>, start: int, n: nat)
    requires
        0 <= start,
        allocation_end(used, start, n) < 0x1_0000_0000,
    ensures
        forall|k: int| 0 <= k < n ==> !used.contains(#[trigger] allocation(used, start, n)[k] as u32),
        forall|j: int, k: int| 0 <= j < k < n ==>
            #[trigger] allocation(used, start, n)[j] < #[trigger] allocation(used, start, n)[k],
        forall|k: int| 0 <= k < n ==> start <= #[trigger] allocation(used, start, n)[k] < 0x1_0000_0000,
    decreases n,
{
    lemma_allocation(used, start, n);
    lemma_next_unused(used, start);
    if n > 0 {
        let b = next_unused(used, start);
        let rest = allocation(used, b + 1, (n - 1) as nat);
        lemma_allocation(used, b + 1, (n - 1) as nat);
        lemma_allocation_fresh_from(used, b + 1, (n - 1) as nat);
        assert(allocation_end(used, start, n) == allocation_end(used, b + 1, (n - 1) as nat));
        assert(b < 0x1_0000_0000);
        let all = allocation(used, start, n);
        assert(all == seq![b] + rest);
        assert forall|k: int| 0 <= k < n implies !used.contains(#[trigger] all[k] as u32) by {
            if k > 0 {
                assert(all[k] == rest[k - 1]);
            }
        }
        assert forall|j: int, k: int| 0 <= j < k < n implies #[trigger] all[j] < #[trigger] all[k] by {
            assert(all[k] == rest[k - 1]);
            if j > 0 {
                assert(all[j] == rest[j - 1]);
            }
        }
        assert forall|k: int| 0 <= k < n implies start <= #[trigger] all[k] < 0x1_0000_0000 by {
            if k > 0 {
                assert(all[k] == rest[k - 1]);
            }
        }
    }
}

// ---------------------------------------------------------------------------
// The rewrite of a whole module

/// A pointer type or variable with its storage class (its first operand) set
/// to `Uniform`.
pub open spec fn to_uniform(p: PlainView) -> PlainView {
    if p.3.len() > 0 {
        (p.0, p.1, p.2, p.3.update(0, (OperandKind::Class, seq![STORAGE_UNIFORM])))
    } else {
        p
    }
}

/// The globals with those at indices `idx` set to `Uniform`.
pub open spec fn retyped_globals(g: Seq<PlainView>, idx: Seq<usize>) -> Seq<PlainView> {
    Seq::new(g.len(), |i: int| if idx.contains(i as usize) { to_uniform(g[i]) } else { g[i] })
}

/// `OpDecorate %target <decoration> <value>`.
pub open spec fn decorate_plain(target: u32, decoration: u32, value: u32) -> PlainView {
    (OP_DECORATE, None, None, seq![(OperandKind::Id, seq![target]), (OperandKind::Deco, seq![decoration]),
        (OperandKind::Bit32, seq![value])])
}

/// For each `(variable, binding)`: `DescriptorSet 0`, then the binding.
pub open spec fn binding_decorations(d: Seq<(u32, u32)>) -> Seq<PlainView>
    decreases d.len(),
{
    if d.len() == 0 {
        Seq::empty()
    } else {
        binding_decorations(d.drop_last()) + seq![decorate_plain(d.last().0, DECORATION_DESCRIPTOR_SET, 0),
            decorate_plain(d.last().0, DECORATION_BINDING, d.last().1)]
    }
}

/// Module `m`'s instructions after the rewrite: the decorations `d` appended
/// to the annotations, and the globals at `idx` set to `Uniform`.
pub open spec fn push_applied(m: ModuleView, idx: Seq<usize>, d: Seq<(u32, u32)>) -> Seq<PlainView> {
    m.1.subrange(0, globals_start(m)) + binding_decorations(d)
        + retyped_globals(m.1.subrange(globals_start(m), globals_end(m)), idx)
        + m.1.subrange(globals_end(m), m.1.len() as int)
}

/// Each push-constant variable with the binding it gets.
pub open spec fn push_bindings(vars: Seq<u32>, alloc: Seq<int>) -> Seq<(u32, u32)> {
    Seq::new(vars.len(), |k: int| (vars[k], alloc[k] as u32))
}

/// The push-constant rewrite of loaded module `m` to bindings counted from
/// `target`: `None` when no binding is left; otherwise the words, or `None`
/// inside when there is no push-constant block (the input words stand).
pub open spec fn push_outcome(m: ModuleView, target: u32) -> Option<Option<Seq<u32>>> {
    let a = insts_of(m.1.subrange(annotations_start(m), globals_start(m)));
    let g = insts_of(m.1.subrange(globals_start(m), globals_end(m)));
    let vars = push_vars(g);
    let used = set0_bindings(a);
    if vars.len() == 0 {
        Some(None)
    } else if allocation_end(used, target as int, vars.len()) >= 0x1_0000_0000 {
        None
    } else {
        Some(Some(module_words(m.0, push_applied(m, retype_indices(g),
            push_bindings(vars, allocation(used, target as int, vars.len()))))))
    }
}

/// Whether `i` is among `v`.
fn index_in(v: &Vec<usize>, i: usize) -> (b: bool)
    ensures
        b == v@.contains(i),
{
    let mut k: usize = 0;
    while k < v.len()
        invariant
            k <= v@.len(),
            forall|j: int| 0 <= j < k ==> v@[j] != i,
        decreases v@.len() - k,
    {
        if v[k] == i {
            assert(v@[k as int] == i);
            return true;
        }
        k = k + 1;
    }
    false
}

/// Rewrite one stage's push-constant block into a uniform buffer at
/// `(set = 0, binding)`, bindings counted upward from `target_binding` and
/// skipping the module's own set-0 bindings (see [`plan_push_rewrite`]):
/// words that do not load are [`PushToUboError::Parse`]; without a
/// push-constant block the words are returned as they are; when no binding is
/// left it is [`PushToUboError::BindingsExhausted`]; otherwise the words of
/// the rewritten module.
pub fn push_constant_to_ubo(words: &[u32], target_binding: u32) -> (r: Result<Vec<u32>, PushToUboError>)
    ensures
        match spirv_load_module(words@) {
            Err(e) => r matches Err(PushToUboError::Parse(s)) && s@ == e,
            Ok(m) => match push_outcome(m, target_binding) {
                None => r matches Err(PushToUboError::BindingsExhausted),
                Some(None) => r matches Ok(w) && w@ == words@,
                Some(Some(out)) => r matches Ok(w) && w@ == out,
            },
        },
{
    let m = match load_module(words) {
        Err(e) => return Err(PushToUboError::Parse(e)),
        Ok(m) => m,
    };
    let ghost mv = m@;
    let a0 = m.2[0] - m.2[4] - m.2[3];
    let g0 = m.2[0] - m.2[4];
    let g1 = m.2[0];
    let model = SpirvModel { annotations: insts_of_range(&m.1, a0, g0), globals: insts_of_range(&m.1, g0, g1) };
    let plan = plan_push_rewrite(&model, target_binding);
    let ghost a = insts_view(model.annotations@);
    let ghost g = insts_view(model.globals@);
    let p = match plan {
        PushPlan::Unchanged => return Ok(vstd::slice::slice_to_vec(words)),
        PushPlan::BindingsExhausted => return Err(PushToUboError::BindingsExhausted),
        PushPlan::Rewrite(p) => p,
    };
    let ghost vars = push_vars(g);
    let ghost used = set0_bindings(a);
    let ghost alloc = allocation(used, target_binding as int, vars.len());
    proof {
        lemma_allocation_fresh(used, target_binding, vars.len());
        assert(p.decorations@ =~= push_bindings(vars, alloc));
    }
    let ghost all = plain_view(m.1@);
    let mut out: Vec<u32> = Vec::new();
    match &m.0 {
        Some(h) => append_words(&mut out, h),
        None => {},
    }
    let ghost h0 = out@;
    assert(h0 == opt_words(mv.0));
    let ghost mut emitted: Seq<PlainView> = Seq::empty();
    let mut k: usize = 0;
    while k < g0
        invariant
            k <= g0 <= g1 <= m.1@.len(),
            all == plain_view(m.1@),
            emitted == all.subrange(0, k as int),
            out@ == h0 + encode_insts(emitted),
        decreases g0 - k,
    {
        encode_plain(&mut out, &m.1[k]);
        proof {
            assert(emitted.push(all[k as int]).drop_last() =~= emitted);
            emitted = emitted.push(all[k as int]);
            assert(emitted =~= all.subrange(0, k + 1));
        }
        k = k + 1;
    }
    let ghost before_d = emitted;
    let mut j: usize = 0;
    while j < p.decorations.len()
        invariant
            j <= p.decorations@.len(),
            emitted == before_d + binding_decorations(p.decorations@.take(j as int)),
            out@ == h0 + encode_insts(emitted),
        decreases p.decorations@.len() - j,
    {
        let (var, b) = p.decorations[j];
        let ops1 = vec![(OperandKind::Id, vec![var]), (OperandKind::Deco, vec![DECORATION_DESCRIPTOR_SET]),
            (OperandKind::Bit32, vec![0u32])];
        encode_parts(&mut out, OP_DECORATE, None, None, &ops1);
        let ops2 = vec![(OperandKind::Id, vec![var]), (OperandKind::Deco, vec![DECORATION_BINDING]),
            (OperandKind::Bit32, vec![b])];
        encode_parts(&mut out, OP_DECORATE, None, None, &ops2);
        proof {
            let d1 = decorate_plain(var, DECORATION_DESCRIPTOR_SET, 0);
            let d2 = decorate_plain(var, DECORATION_BINDING, b);
            assert(operands_view(ops1@) =~~= d1.3);
            assert(operands_view(ops2@) =~~= d2.3);
            assert((OP_DECORATE, None::<u32>, None::<u32>, operands_view(ops1@)) == d1);
            assert((OP_DECORATE, None::<u32>, None::<u32>, operands_view(ops2@)) == d2);
            assert(emitted.push(d1).drop_last() =~= emitted);
            assert(emitted.push(d1).push(d2).drop_last() =~= emitted.push(d1));
            assert(encode_insts(emitted.push(d1)) == encode_insts(emitted) + encode_inst(d1));
            assert(encode_insts(emitted.push(d1).push(d2)) == encode_insts(emitted.push(d1)) + encode_inst(d2));
            assert(out@ =~= h0 + encode_insts(emitted.push(d1).push(d2)));
            assert(p.decorations@.take(j + 1).drop_last() =~= p.decorations@.take(j as int));
            emitted = emitted.push(d1).push(d2);
            assert(emitted =~= before_d + binding_decorations(p.decorations@.take(j + 1)));
        }
        j = j + 1;
    }
    assert(p.decorations@.take(p.decorations@.len() as int) =~= p.decorations@);
    let ghost before_g = emitted;
    let ghost gs = all.subrange(g0 as int, g1 as int);
    let ghost rg = retyped_globals(gs, p.retype@);
    let mut k: usize = g0;
    while k < g1
        invariant
            g0 <= k <= g1 <= m.1@.len(),
            all == plain_view(m.1@),
            gs == all.subrange(g0 as int, g1 as int),
            rg == retyped_globals(gs, p.retype@),
            emitted == before_g + rg.take(k - g0),
            out@ == h0 + encode_insts(emitted),
        decreases g1 - k,
    {
        let x = &m.1[k];
        let hit = index_in(&p.retype, k - g0);
        if hit && x.3.len() > 0 {
            let ops = ops_with_first(x, OperandKind::Class, STORAGE_UNIFORM);
            encode_parts(&mut out, x.0, x.1, x.2, &ops);
        } else {
            encode_plain(&mut out, x);
        }
        proof {
            assert(rg[k - g0] == (if p.retype@.contains((k - g0) as usize) { to_uniform(gs[k - g0]) } else { gs[k - g0] }));
            assert(gs[k - g0] == x@);
            assert(emitted.push(rg[k - g0]).drop_last() =~= emitted);
            emitted = emitted.push(rg[k - g0]);
            assert(rg.take(k + 1 - g0) =~= rg.take(k - g0).push(rg[k - g0]));
        }
        k = k + 1;
    }
    assert(rg.take(g1 - g0) =~= rg);
    let ghost before_f = emitted;
    let n = m.1.len();
    let mut k: usize = g1;
    while k < n
        invariant
            g1 <= k <= n == m.1@.len(),
            all == plain_view(m.1@),
            emitted == before_f + all.subrange(g1 as int, k as int),
            out@ == h0 + encode_insts(emitted),
        decreases n - k,
    {
        encode_plain(&mut out, &m.1[k]);
        proof {
            assert(emitted.push(all[k as int]).drop_last() =~= emitted);
            emitted = emitted.push(all[k as int]);
            assert(all.subrange(g1 as int, k + 1) =~= all.subrange(g1 as int, k as int).push(all[k as int]));
        }
        k = k + 1;
    }
    proof {
        assert(emitted =~= push_applied(mv, retype_indices(g), push_bindings(vars, alloc)));
    }
    Ok(out)
}

} // verus!
