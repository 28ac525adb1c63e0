//! The whole combined-sampler split of a module, decided over plain
//! instruction values: which variables split, the new types, variables,
//! decorations and names, each function body's rewrite, the def-before-use
//! order of the global section and the new id bound. Applying the edits to
//! the loaded module and encoding it is [`crate::split_apply`]'s.

use vstd::prelude::*;
use crate::spirv_model::{OperandVal, SpirvInst, InstView, insts_view, OP_TYPE_POINTER, OP_VARIABLE, OP_DECORATE,
    DECORATION_BINDING, DECORATION_DESCRIPTOR_SET};
use crate::split::{id_refs, id_refs_exec, TypeIndex, CombinedVar, SamplerSplit, SplitError, IdAllocator,
    find_combined_variables, splits_for, splits_spec, used_pairs, combined_scan, sampled_table, sampler_table,
    component_table, aggregate_message, OP_TYPE_SAMPLER, STORAGE_UNIFORM_CONSTANT};
use crate::split_rewrite::{VarSplit, BlockItem, ItemView, RewriteFault, RwState, rw_step, rw_block, block_start, items_view, lookup, blocks_view,
    blocks_results_present, rw_blocks, var_use, var_use_message, value_use_message, rewrite_bodies,
    validate_var_uses, fault_error};
use crate::global_order::{DepNode, NodeView, nodes_view, def_use_order, dfs_order, is_permutation, acyclic, defs_first, in_order};

verus! {

/// SPIR-V opcode `OpName`.
pub const OP_NAME: u32 = 5;

/// The suffix a split-out sampler variable's name adds to its image's name.
pub const SAMPLER_NAME_SUFFIX: &'static str = "Smp";

/// A module as the split reads it.
pub struct SpirvModule {
    /// The header's id bound, when the module has a header.
    pub bound: Option<u32>,
    /// Every instruction of the module, in module order.
    pub all: Vec<SpirvInst>,
    /// The debug-name instructions (`OpName` and friends).
    pub names: Vec<SpirvInst>,
    /// The annotation instructions.
    pub annotations: Vec<SpirvInst>,
    /// The types, constants and global variables.
    pub globals: Vec<SpirvInst>,
    /// Every function's blocks, function by function, each block's
    /// instructions in order.
    pub blocks: Vec<Vec<SpirvInst>>,
}

/// An instruction of the new global section: one of the module's globals
/// (by index) kept or given a new result type, or a new instruction.
#[derive(Debug, Clone, PartialEq, Eq)]
pub enum GlobalItem {
    Keep(usize),
    Retyped(usize, u32),
    New(SpirvInst),
}

/// The content of a [`GlobalItem`].
pub enum GlobalView {
    Keep(int),
    Retyped(int, u32),
    New(InstView),
}

impl View for GlobalItem {
    type V = GlobalView;

    open spec fn view(&self) -> GlobalView {
        match self {
            GlobalItem::Keep(i) => GlobalView::Keep(*i as int),
            GlobalItem::Retyped(i, t) => GlobalView::Retyped(*i as int, *t),
            GlobalItem::New(inst) => GlobalView::New(inst@),
        }
    }
}

/// The global items of a list, by their content.
pub open spec fn globals_view(v: Seq<GlobalItem>) -> Seq<GlobalView> {
    v.map_values(|g: GlobalItem| g@)
}

/// A new name: the target, and the index (among the module's names) of the
/// name instruction whose string, followed by [`SAMPLER_NAME_SUFFIX`], it
/// takes.
#[derive(Debug, Clone, Copy, PartialEq, Eq, Structural)]
pub struct NewName {
    pub target: u32,
    pub from: usize,
}

/// Every edit of a split.
pub struct SplitEdits {
    /// The new global section before ordering: the module's globals, some
    /// retyped, then the new instructions.
    pub globals: Vec<GlobalItem>,
    /// The order to emit `globals` in: `globals[order[0]]` first.
    pub order: Vec<usize>,
    /// Annotations to append.
    pub annotations: Vec<SpirvInst>,
    /// Names to append.
    pub names: Vec<NewName>,
    /// Each block's rewritten instructions, in the order of the input blocks.
    pub blocks: Vec<Vec<BlockItem>>,
    /// The new header bound (when the module has a header).
    pub bound: Option<u32>,
}

/// What splitting a module comes to.
pub enum SplitOutcome {
    /// No combined sampler: the module stays as it is.
    Unchanged,
    /// The module is rewritten with these edits.
    Rewritten(SplitEdits),
    /// An id or a binding would pass the largest 32-bit value.
    Exhausted,
}

// ---------------------------------------------------------------------------
// Fresh ids

/// The ids instruction `inst` mentions: its result type, its result id and
/// each id operand.
pub open spec fn mentioned_ids(inst: InstView) -> Seq<u32> {
    (match inst.1 { Some(t) => seq![t], None => Seq::empty() })
        + (match inst.2 { Some(r) => seq![r], None => Seq::empty() })
        + id_refs(inst.3)
}

/// The larger of `m` and one past each of `ids`.
pub open spec fn above_all(m: nat, ids: Seq<u32>) -> nat
    decreases ids.len(),
{
    if ids.len() == 0 {
        m
    } else {
        let p = above_all(m, ids.drop_last());
        if ids.last() + 1 > p { (ids.last() + 1) as nat } else { p }
    }
}

/// The first id above `start` and above every id `insts` mention.
pub open spec fn first_free_id(start: nat, insts: Seq<InstView>) -> nat
    decreases insts.len(),
{
    if insts.len() == 0 {
        start
    } else {
        above_all(first_free_id(start, insts.drop_last()), mentioned_ids(insts.last()))
    }
}

/// No instruction mentions the largest 32-bit id.
pub open spec fn below_max_ids(insts: Seq<InstView>) -> bool {
    forall|i: int, k: int| 0 <= i < insts.len() && 0 <= k < mentioned_ids(insts[i]).len()
        ==> #[trigger] mentioned_ids(insts[i])[k] < u32::MAX
}

/// Where fresh ids start: the header bound (1 without a header).
pub open spec fn bound_or_one(bound: Option<u32>) -> nat {
    match bound { Some(b) => b as nat, None => 1 }
}

proof fn lemma_above_all_bounded(m: nat, ids: Seq<u32>)
    requires
        m <= u32::MAX,
        forall|k: int| 0 <= k < ids.len() ==> #[trigger] ids[k] < u32::MAX,
    ensures
        m <= above_all(m, ids) <= u32::MAX,
    decreases ids.len(),
{
    if ids.len() > 0 {
        lemma_above_all_bounded(m, ids.drop_last());
    }
}

fn mentioned_exec(inst: &SpirvInst) -> (r: Vec<u32>)
    ensures
        r@ == mentioned_ids(inst@),
{
    let mut r: Vec<u32> = Vec::new();
    match inst.result_type { Some(t) => { r.push(t); }, None => {} }
    match inst.result_id { Some(x) => { r.push(x); }, None => {} }
    let refs = id_refs_exec(&inst.operands);
    let ghost pre = r@;
    let mut j: usize = 0;
    while j < refs.len()
        invariant
            j <= refs@.len(),
            r@ == pre + refs@.take(j as int),
        decreases refs@.len() - j,
    {
        r.push(refs[j]);
        assert(refs@.take(j + 1) =~= refs@.take(j as int).push(refs@[j as int]));
        j = j + 1;
    }
    assert(refs@.take(refs@.len() as int) =~= refs@);
    assert(r@ =~= mentioned_ids(inst@));
    r
}

/// The id allocator for a module: its first id lies above the header bound
/// and above every id the module mentions; `None` when some id is already
/// the largest 32-bit id.
pub fn id_allocator(bound: Option<u32>, all: &Vec<SpirvInst>) -> (r: Option<IdAllocator>)
    ensures
        below_max_ids(insts_view(all@)) ==> (r matches Some(a)
            && a.next_id == first_free_id(bound_or_one(bound), insts_view(all@))),
        !below_max_ids(insts_view(all@)) ==> r is None,
{
    let ghost v = insts_view(all@);
    let mut m: u32 = match bound { Some(b) => b, None => 1 };
    let mut i: usize = 0;
    assert(v.take(0) =~= Seq::<InstView>::empty());
    while i < all.len()
        invariant
            i <= all@.len(),
            v == insts_view(all@),
            m == first_free_id(bound_or_one(bound), v.take(i as int)),
            below_max_ids(v.take(i as int)),
        decreases all@.len() - i,
    {
        assert(v.take(i + 1).drop_last() =~= v.take(i as int));
        assert(v.take(i + 1).last() == all@[i as int]@);
        let ids = mentioned_exec(&all[i]);
        let mut k: usize = 0;
        let ghost m0 = m;
        assert(ids@.take(0) =~= Seq::<u32>::empty());
        while k < ids.len()
            invariant
                k <= ids@.len(),
                i < all@.len(),
                v == insts_view(all@),
                ids@ == mentioned_ids(all@[i as int]@),
                m == above_all(m0 as nat, ids@.take(k as int)),
                forall|q: int| 0 <= q < k ==> #[trigger] ids@[q] < u32::MAX,
            decreases ids@.len() - k,
        {
            assert(ids@.take(k + 1).drop_last() =~= ids@.take(k as int));
            if ids[k] == u32::MAX {
                proof {
                    assert(mentioned_ids(v[i as int])[k as int] == u32::MAX);
                    assert(!below_max_ids(v)) by {
                        assert(mentioned_ids(v[i as int])[k as int] == u32::MAX);
                    }
                }
                return None;
            }
            if ids[k] + 1 > m {
                m = ids[k] + 1;
            }
            k = k + 1;
        }
        assert(ids@.take(ids@.len() as int) =~= ids@);
        proof {
            assert forall|a: int, b: int| 0 <= a < v.take(i + 1).len() && 0 <= b < mentioned_ids(v.take(i + 1)[a]).len()
                implies #[trigger] mentioned_ids(v.take(i + 1)[a])[b] < u32::MAX by {
                if a < i {
                    assert(v.take(i + 1)[a] == v.take(i as int)[a]);
                } else {
                    assert(v.take(i + 1)[a] == v[i as int]);
                }
            }
        }
        i = i + 1;
    }
    assert(v.take(all@.len() as int) =~= v);
    Some(IdAllocator { next_id: m })
}

// ---------------------------------------------------------------------------
// The new types, variables, decorations and names

/// What the split adds to the module's global declarations so far.
pub struct GlobalPlan {
    /// The next fresh id.
    pub next: u32,
    /// The sampler type every new sampler variable has.
    pub sampler_type: u32,
    /// The pointer-to-sampler type every new sampler variable has.
    pub sampler_ptr: u32,
    /// New global instructions, in order.
    pub added: Seq<InstView>,
    /// `(variable, new pointer type)` for each retyped combined variable.
    pub retype: Seq<(u32, u32)>,
    /// `(image type, pointer-to-image type)`, one per image type.
    pub image_ptrs: Seq<(u32, u32)>,
    /// Each combined variable's split, in order.
    pub plan: Seq<VarSplit>,
    /// New decorations, in order.
    pub decorations: Seq<InstView>,
    /// New names: `(target, index of the name it derives from)`.
    pub names: Seq<(u32, int)>,
}

/// `OpTypePointer %id UniformConstant %pointee`.
pub open spec fn pointer_inst(id: u32, pointee: u32) -> InstView {
    (OP_TYPE_POINTER, None, Some(id), seq![OperandVal::StorageClass(STORAGE_UNIFORM_CONSTANT), OperandVal::IdRef(pointee)])
}

/// `OpDecorate %target <deco> <value>`.
pub open spec fn decorate_inst(target: u32, deco: u32, value: u32) -> InstView {
    (OP_DECORATE, None, None, seq![OperandVal::IdRef(target), OperandVal::Decoration(deco), OperandVal::LiteralBit32(value)])
}

/// The first name instruction that names `id` with a string.
pub open spec fn name_index(names: Seq<InstView>, id: u32) -> Option<int>
    decreases names.len(),
{
    if names.len() == 0 {
        None
    } else {
        match name_index(names.drop_last(), id) {
            Some(j) => Some(j),
            None => {
                let n = names.last();
                if n.0 == OP_NAME && n.3.len() >= 2 && n.3[0] == OperandVal::IdRef(id) && n.3[1] == OperandVal::Text {
                    Some(names.len() - 1)
                } else {
                    None
                }
            },
        }
    }
}

/// The start of the plan: the module's first sampler type (or a new one),
/// and a new pointer-to-sampler type; `None` when ids run out.
pub open spec fn gp_start(g: Seq<InstView>, next: u32) -> Option<GlobalPlan> {
    let st = sampler_table(g);
    let (sampler_type, n1, added) = if st.len() > 0 {
        (st[0], next as int, Seq::<InstView>::empty())
    } else {
        (next, next + 1, seq![(OP_TYPE_SAMPLER, None::<u32>, Some(next), Seq::<OperandVal>::empty())])
    };
    if n1 >= u32::MAX {
        None
    } else {
        Some(GlobalPlan {
            next: (n1 + 1) as u32,
            sampler_type,
            sampler_ptr: n1 as u32,
            added: added.push(pointer_inst(n1 as u32, sampler_type)),
            retype: Seq::empty(),
            image_ptrs: Seq::empty(),
            plan: Seq::empty(),
            decorations: Seq::empty(),
            names: Seq::empty(),
        })
    }
}

/// One combined variable's part of the plan: a pointer-to-image type for its
/// image type (the first time that type comes up), the variable retyped to
/// it, a new sampler variable with its set and binding decorations, and a
/// name derived from the variable's (when it has one); `None` when ids run
/// out.
pub open spec fn gp_step(names: Seq<InstView>, p: GlobalPlan, s: SamplerSplit) -> Option<GlobalPlan> {
    let cv = s.var;
    let (ip, n1, added1, ips1) = match lookup(p.image_ptrs, cv.image_type_id) {
        Some(x) => (x, p.next as int, p.added, p.image_ptrs),
        None => (p.next, p.next + 1, p.added.push(pointer_inst(p.next, cv.image_type_id)),
            p.image_ptrs.push((cv.image_type_id, p.next))),
    };
    if p.next == u32::MAX || n1 >= u32::MAX {
        None
    } else {
        let sv = n1 as u32;
        Some(GlobalPlan {
            next: (n1 + 1) as u32,
            sampler_type: p.sampler_type,
            sampler_ptr: p.sampler_ptr,
            added: added1.push((OP_VARIABLE, Some(p.sampler_ptr), Some(sv), seq![OperandVal::StorageClass(STORAGE_UNIFORM_CONSTANT)])),
            retype: p.retype.push((cv.var_id, ip)),
            image_ptrs: ips1,
            plan: p.plan.push(VarSplit {
                var_id: cv.var_id,
                image_type_id: cv.image_type_id,
                sampler_var_id: sv,
                sampler_type_id: p.sampler_type,
            }),
            decorations: p.decorations.push(decorate_inst(sv, DECORATION_DESCRIPTOR_SET, s.set))
                .push(decorate_inst(sv, DECORATION_BINDING, s.binding)),
            names: match name_index(names, cv.var_id) {
                Some(j) => p.names.push((sv, j)),
                None => p.names,
            },
        })
    }
}

/// The plan after each of `ss` in turn.
pub open spec fn gp_fold(names: Seq<InstView>, p: GlobalPlan, ss: Seq<SamplerSplit>) -> Option<GlobalPlan>
    decreases ss.len(),
{
    if ss.len() == 0 {
        Some(p)
    } else {
        match gp_fold(names, p, ss.drop_last()) {
            None => None,
            Some(q) => gp_step(names, q, ss.last()),
        }
    }
}

/// The whole plan for splits `ss`, fresh ids from `next`.
pub open spec fn global_plan(g: Seq<InstView>, names: Seq<InstView>, ss: Seq<SamplerSplit>, next: u32) -> Option<GlobalPlan> {
    match gp_start(g, next) {
        None => None,
        Some(p) => gp_fold(names, p, ss),
    }
}

proof fn lemma_gp_fold_none(names: Seq<InstView>, p: GlobalPlan, ss: Seq<SamplerSplit>, k: int)
    requires
        0 <= k <= ss.len(),
        gp_fold(names, p, ss.take(k)) is None,
    ensures
        gp_fold(names, p, ss) is None,
    decreases ss.len() - k,
{
    if k == ss.len() {
        assert(ss.take(k) =~= ss);
    } else {
        assert(ss.take(k + 1).drop_last() =~= ss.take(k));
        lemma_gp_fold_none(names, p, ss, k + 1);
    }
}

/// The global edits in executable form.
struct GlobalEdits {
    added: Vec<SpirvInst>,
    retype: Vec<(u32, u32)>,
    plan: Vec<VarSplit>,
    decorations: Vec<SpirvInst>,
    names: Vec<NewName>,
}

/// The new names, as `(target, index)`.
pub open spec fn names_view(v: Seq<NewName>) -> Seq<(u32, int)> {
    v.map_values(|n: NewName| (n.target, n.from as int))
}

fn name_index_exec(names: &Vec<SpirvInst>, id: u32) -> (r: Option<usize>)
    ensures
        match r {
            Some(j) => name_index(insts_view(names@), id) == Some(j as int),
            None => name_index(insts_view(names@), id) is None,
        },
{
    let ghost v = insts_view(names@);
    let mut i: usize = 0;
    assert(v.take(0) =~= Seq::<InstView>::empty());
    while i < names.len()
        invariant
            i <= names@.len(),
            v == insts_view(names@),
            name_index(v.take(i as int), id) is None,
        decreases names@.len() - i,
    {
        assert(v.take(i + 1).drop_last() =~= v.take(i as int));
        assert(v.take(i + 1).last() == names@[i as int]@);
        let n = &names[i];
        if n.opcode == OP_NAME && n.operands.len() >= 2 && n.operands[0] == OperandVal::IdRef(id)
            && n.operands[1] == OperandVal::Text {
            proof { lemma_name_index_prefix(v, id, i + 1); }
            return Some(i);
        }
        i = i + 1;
    }
    assert(v.take(names@.len() as int) =~= v);
    None
}

/// A name found in a prefix stays the first one found.
proof fn lemma_name_index_prefix(v: Seq<InstView>, id: u32, k: int)
    requires
        0 <= k <= v.len(),
        name_index(v.take(k), id) is Some,
    ensures
        name_index(v, id) == name_index(v.take(k), id),
    decreases v.len() - k,
{
    if k == v.len() {
        assert(v.take(k) =~= v);
    } else {
        assert(v.take(k + 1).drop_last() =~= v.take(k));
        lemma_name_index_prefix(v, id, k + 1);
    }
}

fn lookup_pair(s: &Vec<(u32, u32)>, k: u32) -> (r: Option<u32>)
    ensures
        r == lookup(s@, k),
{
    let mut i: usize = s.len();
    assert(s@.take(i as int) =~= s@);
    while i > 0
        invariant
            i <= s@.len(),
            lookup(s@, k) == lookup(s@.take(i as int), k),
        decreases i,
    {
        assert(s@.take(i as int).drop_last() =~= s@.take(i - 1));
        assert(s@.take(i as int).last() == s@[i - 1]);
        if s[i - 1].0 == k {
            return Some(s[i - 1].1);
        }
        i = i - 1;
    }
    None
}

fn pointer_exec(id: u32, pointee: u32) -> (r: SpirvInst)
    ensures
        r@ == pointer_inst(id, pointee),
{
    let ops = vec![OperandVal::StorageClass(STORAGE_UNIFORM_CONSTANT), OperandVal::IdRef(pointee)];
    assert(ops@ =~= seq![OperandVal::StorageClass(STORAGE_UNIFORM_CONSTANT), OperandVal::IdRef(pointee)]);
    SpirvInst { opcode: OP_TYPE_POINTER, result_type: None, result_id: Some(id), operands: ops }
}

fn decorate_exec(target: u32, deco: u32, value: u32) -> (r: SpirvInst)
    ensures
        r@ == decorate_inst(target, deco, value),
{
    let ops = vec![OperandVal::IdRef(target), OperandVal::Decoration(deco), OperandVal::LiteralBit32(value)];
    assert(ops@ =~= seq![OperandVal::IdRef(target), OperandVal::Decoration(deco), OperandVal::LiteralBit32(value)]);
    SpirvInst { opcode: OP_DECORATE, result_type: None, result_id: None, operands: ops }
}

/// Build the global part of the split (see [`global_plan`]).
fn build_global_plan(sampler_types: &Vec<u32>, names: &Vec<SpirvInst>, splits: &Vec<SamplerSplit>, ids: &mut IdAllocator,
    Ghost(g): Ghost<Seq<InstView>>) -> (r: Option<GlobalEdits>)
    requires
        sampler_types@ == sampler_table(g),
    ensures
        match global_plan(g, insts_view(names@), splits@, old(ids).next_id) {
            None => r is None,
            Some(p) => r matches Some(e) && insts_view(e.added@) == p.added && e.retype@ == p.retype
                && e.plan@ == p.plan && insts_view(e.decorations@) == p.decorations && names_view(e.names@) == p.names
                && final(ids).next_id == p.next,
        },
{
    let ghost nv = insts_view(names@);
    let mut added: Vec<SpirvInst> = Vec::new();
    let sampler_type = if sampler_types.len() > 0 {
        sampler_types[0]
    } else {
        if ids.next_id == u32::MAX {
            return None;
        }
        let t = ids.fresh();
        added.push(SpirvInst { opcode: OP_TYPE_SAMPLER, result_type: None, result_id: Some(t), operands: Vec::new() });
        t
    };
    if ids.next_id == u32::MAX {
        return None;
    }
    let sampler_ptr = ids.fresh();
    added.push(pointer_exec(sampler_ptr, sampler_type));
    let ghost p0 = gp_start(g, old(ids).next_id)->0;
    assert(insts_view(added@) =~= p0.added);
    let mut retype: Vec<(u32, u32)> = Vec::new();
    let mut image_ptrs: Vec<(u32, u32)> = Vec::new();
    let mut plan: Vec<VarSplit> = Vec::new();
    let mut decorations: Vec<SpirvInst> = Vec::new();
    let mut new_names: Vec<NewName> = Vec::new();
    let mut k: usize = 0;
    assert(splits@.take(0) =~= Seq::<SamplerSplit>::empty());
    assert(insts_view(decorations@) =~= Seq::<InstView>::empty());
    assert(names_view(new_names@) =~= Seq::<(u32, int)>::empty());
    while k < splits.len()
        invariant
            k <= splits@.len(),
            nv == insts_view(names@),
            p0 == gp_start(g, old(ids).next_id)->0,
            gp_start(g, old(ids).next_id) is Some,
            gp_fold(nv, p0, splits@.take(k as int)) == Some(GlobalPlan {
                next: ids.next_id,
                sampler_type,
                sampler_ptr,
                added: insts_view(added@),
                retype: retype@,
                image_ptrs: image_ptrs@,
                plan: plan@,
                decorations: insts_view(decorations@),
                names: names_view(new_names@),
            }),
            p0.sampler_type == sampler_type,
            p0.sampler_ptr == sampler_ptr,
        decreases splits@.len() - k,
    {
        assert(splits@.take(k + 1).drop_last() =~= splits@.take(k as int));
        assert(splits@.take(k + 1).last() == splits@[k as int]);
        let s = splits[k];
        let cv = s.var;
        let ghost q = GlobalPlan {
            next: ids.next_id, sampler_type, sampler_ptr, added: insts_view(added@), retype: retype@,
            image_ptrs: image_ptrs@, plan: plan@, decorations: insts_view(decorations@), names: names_view(new_names@),
        };
        if ids.next_id == u32::MAX {
            proof { lemma_gp_fold_none(nv, p0, splits@, (k + 1) as int); }
            return None;
        }
        let ip = match lookup_pair(&image_ptrs, cv.image_type_id) {
            Some(x) => x,
            None => {
                let x = ids.fresh();
                added.push(pointer_exec(x, cv.image_type_id));
                image_ptrs.push((cv.image_type_id, x));
                x
            },
        };
        if ids.next_id == u32::MAX {
            proof {
                assert(gp_step(nv, q, s) is None);
                lemma_gp_fold_none(nv, p0, splits@, (k + 1) as int);
            }
            return None;
        }
        retype.push((cv.var_id, ip));
        let sv = ids.fresh();
        let vops = vec![OperandVal::StorageClass(STORAGE_UNIFORM_CONSTANT)];
        assert(vops@ =~= seq![OperandVal::StorageClass(STORAGE_UNIFORM_CONSTANT)]);
        added.push(SpirvInst { opcode: OP_VARIABLE, result_type: Some(sampler_ptr), result_id: Some(sv), operands: vops });
        decorations.push(decorate_exec(sv, DECORATION_DESCRIPTOR_SET, s.set));
        decorations.push(decorate_exec(sv, DECORATION_BINDING, s.binding));
        match name_index_exec(names, cv.var_id) {
            Some(j) => { new_names.push(NewName { target: sv, from: j }); },
            None => {},
        }
        plan.push(VarSplit { var_id: cv.var_id, image_type_id: cv.image_type_id, sampler_var_id: sv, sampler_type_id: sampler_type });
        proof {
            let q2 = gp_step(nv, q, s)->0;
            assert(gp_step(nv, q, s) is Some);
            assert(insts_view(added@) =~= q2.added);
            assert(insts_view(decorations@) =~= q2.decorations);
            assert(names_view(new_names@) =~= q2.names);
        }
        k = k + 1;
    }
    assert(splits@.take(splits@.len() as int) =~= splits@);
    Some(GlobalEdits { added, retype, plan, decorations, names: new_names })
}

// ---------------------------------------------------------------------------
// The new global section

/// The index of the first `OpVariable` defining `id` among `g`.
pub open spec fn first_var_index(g: Seq<InstView>, id: u32) -> Option<int>
    decreases g.len(),
{
    if g.len() == 0 {
        None
    } else {
        match first_var_index(g.drop_last(), id) {
            Some(j) => Some(j),
            None => if g.last().0 == OP_VARIABLE && g.last().2 == Some(id) { Some(g.len() - 1) } else { None },
        }
    }
}

/// The new result type of global `j`: a combined variable is retyped (the
/// first variable defining its id, to the last pointer recorded for it).
pub open spec fn retype_at(g: Seq<InstView>, retype: Seq<(u32, u32)>, j: int) -> Option<u32> {
    match g[j].2 {
        Some(x) => if first_var_index(g, x) == Some(j) { lookup(retype, x) } else { None },
        None => None,
    }
}

/// The new global section before ordering: every global kept or retyped,
/// then the new instructions.
pub open spec fn pre_globals(g: Seq<InstView>, retype: Seq<(u32, u32)>, added: Seq<InstView>) -> Seq<GlobalView> {
    Seq::new(g.len(), |j: int| match retype_at(g, retype, j) {
        Some(t) => GlobalView::Retyped(j, t),
        None => GlobalView::Keep(j),
    }) + added.map_values(|i: InstView| GlobalView::New(i))
}

/// What the ordering reads of a global item.
pub open spec fn global_node(g: Seq<InstView>, item: GlobalView) -> NodeView {
    match item {
        GlobalView::Keep(j) => (g[j].1, g[j].2, id_refs(g[j].3)),
        GlobalView::Retyped(j, t) => (Some(t), g[j].2, id_refs(g[j].3)),
        GlobalView::New(i) => (i.1, i.2, id_refs(i.3)),
    }
}

/// The ordering's view of a global section.
pub open spec fn global_nodes(g: Seq<InstView>, items: Seq<GlobalView>) -> Seq<NodeView> {
    items.map_values(|it: GlobalView| global_node(g, it))
}

fn first_var_index_exec(globals: &Vec<SpirvInst>, id: u32) -> (r: Option<usize>)
    ensures
        match r {
            Some(j) => first_var_index(insts_view(globals@), id) == Some(j as int),
            None => first_var_index(insts_view(globals@), id) is None,
        },
{
    let ghost v = insts_view(globals@);
    let mut i: usize = 0;
    assert(v.take(0) =~= Seq::<InstView>::empty());
    while i < globals.len()
        invariant
            i <= globals@.len(),
            v == insts_view(globals@),
            first_var_index(v.take(i as int), id) is None,
        decreases globals@.len() - i,
    {
        assert(v.take(i + 1).drop_last() =~= v.take(i as int));
        assert(v.take(i + 1).last() == globals@[i as int]@);
        if globals[i].opcode == OP_VARIABLE && globals[i].result_id == Some(id) {
            proof { lemma_first_var_prefix(v, id, i + 1); }
            return Some(i);
        }
        i = i + 1;
    }
    assert(v.take(globals@.len() as int) =~= v);
    None
}

proof fn lemma_first_var_prefix(v: Seq<InstView>, id: u32, k: int)
    requires
        0 <= k <= v.len(),
        first_var_index(v.take(k), id) is Some,
    ensures
        first_var_index(v, id) == first_var_index(v.take(k), id),
    decreases v.len() - k,
{
    if k == v.len() {
        assert(v.take(k) =~= v);
    } else {
        assert(v.take(k + 1).drop_last() =~= v.take(k));
        lemma_first_var_prefix(v, id, k + 1);
    }
}

proof fn lemma_first_var_bounds(v: Seq<InstView>, id: u32)
    ensures
        match first_var_index(v, id) {
            Some(j) => 0 <= j < v.len() && v[j].0 == OP_VARIABLE && v[j].2 == Some(id),
            None => true,
        },
    decreases v.len(),
{
    if v.len() > 0 {
        lemma_first_var_bounds(v.drop_last(), id);
    }
}

/// The new global section before ordering, and each item's ordering view.
fn pre_globals_exec(globals: &Vec<SpirvInst>, retype: &Vec<(u32, u32)>, added: Vec<SpirvInst>) -> (r: (Vec<GlobalItem>, Vec<DepNode>))
    ensures
        globals_view(r.0@) == pre_globals(insts_view(globals@), retype@, insts_view(added@)),
        nodes_view(r.1@) == global_nodes(insts_view(globals@), globals_view(r.0@)),
{
    let ghost g = insts_view(globals@);
    let ghost added_v = insts_view(added@);
    let ghost target = pre_globals(g, retype@, added_v);
    let mut items: Vec<GlobalItem> = Vec::new();
    let mut nodes: Vec<DepNode> = Vec::new();
    let mut j: usize = 0;
    while j < globals.len()
        invariant
            j <= globals@.len(),
            g == insts_view(globals@),
            target == pre_globals(g, retype@, added_v),
            items@.len() == j,
            nodes@.len() == j,
            forall|k: int| 0 <= k < j ==> #[trigger] items@[k]@ == target[k],
            forall|k: int| 0 <= k < j ==> #[trigger] nodes@[k]@ == global_node(g, target[k]),
        decreases globals@.len() - j,
    {
        let inst = &globals[j];
        let t = match inst.result_id {
            Some(x) => {
                match first_var_index_exec(globals, x) {
                    Some(f) => if f == j { lookup_pair(retype, x) } else { None },
                    None => None,
                }
            },
            None => None,
        };
        assert(t == retype_at(g, retype@, j as int));
        let refs = id_refs_exec(&inst.operands);
        match t {
            Some(tt) => {
                items.push(GlobalItem::Retyped(j, tt));
                nodes.push(DepNode { result_type: Some(tt), result_id: inst.result_id, refs });
            },
            None => {
                items.push(GlobalItem::Keep(j));
                nodes.push(DepNode { result_type: inst.result_type, result_id: inst.result_id, refs });
            },
        }
        j = j + 1;
    }
    let n = globals.len();
    let ghost orig = added@;
    let mut added = added;
    let m = added.len();
    let mut k: usize = 0;
    assert(added@ =~= orig.subrange(0, m as int));
    while k < m
        invariant
            k <= m,
            m == orig.len(),
            n == g.len(),
            added_v == insts_view(orig),
            added@ == orig.subrange(k as int, m as int),
            g == insts_view(globals@),
            target == pre_globals(g, retype@, added_v),
            items@.len() == n + k,
            nodes@.len() == n + k,
            forall|q: int| 0 <= q < n + k ==> #[trigger] items@[q]@ == target[q],
            forall|q: int| 0 <= q < n + k ==> #[trigger] nodes@[q]@ == global_node(g, target[q]),
        decreases m - k,
    {
        let inst = added.remove(0);
        assert(inst == orig[k as int]);
        assert(added@ =~= orig.subrange(k + 1, m as int));
        assert(target[n + k] == GlobalView::New(added_v[k as int]));
        let refs = id_refs_exec(&inst.operands);
        let node = DepNode { result_type: inst.result_type, result_id: inst.result_id, refs };
        items.push(GlobalItem::New(inst));
        nodes.push(node);
        k = k + 1;
    }
    assert(globals_view(items@) =~= target);
    assert(nodes_view(nodes@) =~= global_nodes(g, globals_view(items@)));
    (items, nodes)
}


// ---------------------------------------------------------------------------
// The whole split

/// The variable ids of combined variables `vs`.
pub open spec fn var_ids(vs: Seq<CombinedVar>) -> Seq<u32> {
    vs.map_values(|c: CombinedVar| c.var_id)
}

/// The header bound after the split: the larger of the old bound and the
/// next fresh id (no header, no bound).
pub open spec fn new_bound(bound: Option<u32>, next: u32) -> Option<u32> {
    match bound {
        Some(b) => Some(if b >= next { b } else { next }),
        None => None,
    }
}

/// `e` are the edits for plan `p` with rewritten blocks `items`, fresh ids
/// having run up to `next`.
pub open spec fn edits_match(g: Seq<InstView>, bound: Option<u32>, p: GlobalPlan, items: Seq<Seq<ItemView>>, next: u32, e: SplitEdits) -> bool {
    let pre = pre_globals(g, p.retype, p.added);
    &&& globals_view(e.globals@) == pre
    &&& insts_view(e.annotations@) == p.decorations
    &&& names_view(e.names@) == p.names
    &&& e.blocks@.map_values(|b: Vec<BlockItem>| items_view(b@)) == items
    &&& e.bound == new_bound(bound, next)
    &&& is_permutation(e.order@, pre.len())
    &&& acyclic(global_nodes(g, pre)) ==> defs_first(global_nodes(g, pre), e.order@)
    &&& in_order(global_nodes(g, pre)) ==> e.order@ == Seq::new(pre.len(), |i: int| i as usize)
    &&& e.order@ == dfs_order(global_nodes(g, pre))
}

/// `r` is the split of the module with header bound `bound`, instructions
/// `all`, names `names`, annotations `a`, globals `g` and blocks `blocks`:
/// - an array or aggregate of combined samplers is refused;
/// - without a combined sampler the module is unchanged;
/// - a combined variable used other than by an inline load is refused;
/// - an id at the 32-bit limit, or a set or id counter running out, is
///   `Exhausted`;
/// - otherwise the plan's edits, with every block rewritten (a refused
///   consumer or use is reported as its error).
pub open spec fn split_matches(bound: Option<u32>, all: Seq<InstView>, names: Seq<InstView>, a: Seq<InstView>,
    g: Seq<InstView>, blocks: Seq<Seq<InstView>>, r: Result<SplitOutcome, SplitError>) -> bool {
    match combined_scan(g, sampled_table(g), component_table(g), g) {
        Err((var, pt)) => r matches Err(SplitError::UnsupportedDeclaration(m)) && m@ == aggregate_message(var, pt),
        Ok(vs) => if vs.len() == 0 {
            r matches Ok(SplitOutcome::Unchanged)
        } else {
            match var_use(var_ids(vs), blocks) {
                Some((id, op, i)) => r matches Err(SplitError::UnsupportedDeclaration(m)) && m@ == var_use_message(id, op, i),
                None => if !below_max_ids(all) {
                    r matches Ok(SplitOutcome::Exhausted)
                } else {
                    match splits_spec(a, used_pairs(a, a), vs) {
                        None => r matches Ok(SplitOutcome::Exhausted),
                        Some(ss) => match global_plan(g, names, ss, first_free_id(bound_or_one(bound), all) as u32) {
                            None => r matches Ok(SplitOutcome::Exhausted),
                            Some(p) => match rw_blocks(p.plan, p.next, blocks) {
                                Err(RewriteFault::IdsExhausted) => r matches Ok(SplitOutcome::Exhausted),
                                Err(RewriteFault::UnsupportedConsumer(op)) =>
                                    r matches Err(SplitError::UnsupportedConsumer { opcode }) && opcode == op,
                                Err(RewriteFault::UnsupportedUse { opcode, operand }) =>
                                    r matches Err(SplitError::UnsupportedDeclaration(m)) && m@ == value_use_message(opcode, operand as nat),
                                Ok((n, items)) => r matches Ok(SplitOutcome::Rewritten(e)) && edits_match(g, bound, p, items, n, e),
                            },
                        },
                    }
                },
            }
        },
    }
}

/// Split every combined image-sampler of `module` into an image and a
/// sampler (see [`split_matches`]): the edits that do it, or why it cannot
/// be done.
pub fn split_module(module: &SpirvModule) -> (r: Result<SplitOutcome, SplitError>)
    requires
        blocks_results_present(blocks_view(module.blocks@)),
    ensures
        split_matches(module.bound, insts_view(module.all@), insts_view(module.names@), insts_view(module.annotations@),
            insts_view(module.globals@), blocks_view(module.blocks@), r),
{
    let ghost g = insts_view(module.globals@);
    let types = TypeIndex::build(&module.globals);
    let vars = match find_combined_variables(&module.globals, &types) {
        Ok(v) => v,
        Err(e) => return Err(e),
    };
    if vars.len() == 0 {
        return Ok(SplitOutcome::Unchanged);
    }
    let mut ids_of: Vec<u32> = Vec::new();
    let mut k: usize = 0;
    while k < vars.len()
        invariant
            k <= vars@.len(),
            ids_of@ == var_ids(vars@.take(k as int)),
        decreases vars@.len() - k,
    {
        assert(var_ids(vars@.take(k + 1)) =~= var_ids(vars@.take(k as int)).push(vars@[k as int].var_id));
        ids_of.push(vars[k].var_id);
        k = k + 1;
    }
    assert(vars@.take(vars@.len() as int) =~= vars@);
    match validate_var_uses(&ids_of, &module.blocks) {
        Ok(()) => {},
        Err(e) => return Err(e),
    }
    let mut ids = match id_allocator(module.bound, &module.all) {
        Some(a) => a,
        None => return Ok(SplitOutcome::Exhausted),
    };
    let splits = match splits_for(&module.annotations, &vars) {
        Some(s) => s,
        None => return Ok(SplitOutcome::Exhausted),
    };
    let ge = match build_global_plan(&types.sampler_type_ids, &module.names, &splits, &mut ids, Ghost(g)) {
        Some(e) => e,
        None => return Ok(SplitOutcome::Exhausted),
    };
    let blocks = match rewrite_bodies(&ge.plan, &module.blocks, &mut ids) {
        Ok(b) => b,
        Err(f) => {
            return match fault_error(f) {
                Some(e) => Err(e),
                None => Ok(SplitOutcome::Exhausted),
            };
        },
    };
    let GlobalEdits { added, retype, plan: _, decorations, names } = ge;
    let (globals, nodes) = pre_globals_exec(&module.globals, &retype, added);
    let order = def_use_order(&nodes);
    let bound = match module.bound {
        Some(b) => Some(if b >= ids.next_id { b } else { ids.next_id }),
        None => None,
    };
    Ok(SplitOutcome::Rewritten(SplitEdits { globals, order, annotations: decorations, names, blocks, bound }))
}


// ---------------------------------------------------------------------------
// Fresh ids stay fresh

/// The result ids of `insts`, in order.
pub open spec fn result_ids(insts: Seq<InstView>) -> Seq<u32>
    decreases insts.len(),
{
    if insts.len() == 0 {
        Seq::empty()
    } else {
        let prev = result_ids(insts.drop_last());
        match insts.last().2 {
            Some(r) => prev.push(r),
            None => prev,
        }
    }
}

/// The result ids of the new instructions among `items`, in order.
pub open spec fn created_in(items: Seq<ItemView>) -> Seq<u32>
    decreases items.len(),
{
    if items.len() == 0 {
        Seq::empty()
    } else {
        let prev = created_in(items.drop_last());
        match items.last() {
            ItemView::New(i) => match i.2 {
                Some(r) => prev.push(r),
                None => prev,
            },
            _ => prev,
        }
    }
}

/// The result ids of the new instructions of every block, block by block.
pub open spec fn created_in_blocks(bs: Seq<Seq<ItemView>>) -> Seq<u32>
    decreases bs.len(),
{
    if bs.len() == 0 {
        Seq::empty()
    } else {
        created_in_blocks(bs.drop_last()) + created_in(bs.last())
    }
}

/// `s` strictly increases, and every element lies in `[lo, hi)`.
pub open spec fn fresh_run(s: Seq<u32>, lo: int, hi: int) -> bool {
    &&& forall|i: int, j: int| 0 <= i < j < s.len() ==> s[i] < s[j]
    &&& forall|i: int| 0 <= i < s.len() ==> lo <= #[trigger] s[i] < hi
}

proof fn lemma_fresh_run_append(a: Seq<u32>, b: Seq<u32>, lo: int, mid: int, hi: int)
    requires
        lo <= mid <= hi,
        fresh_run(a, lo, mid),
        fresh_run(b, mid, hi),
    ensures
        fresh_run(a + b, lo, hi),
{
    let c = a + b;
    assert forall|i: int, j: int| 0 <= i < j < c.len() implies c[i] < c[j] by {
        if j < a.len() {
            assert(c[i] == a[i] && c[j] == a[j]);
        } else if i >= a.len() {
            assert(c[i] == b[i - a.len()] && c[j] == b[j - a.len()]);
        } else {
            assert(c[i] == a[i] && c[j] == b[j - a.len()]);
        }
    }
    assert forall|i: int| 0 <= i < c.len() implies lo <= #[trigger] c[i] < hi by {
        if i < a.len() {
            assert(c[i] == a[i]);
        } else {
            assert(c[i] == b[i - a.len()]);
        }
    }
}

proof fn lemma_created_push(items: Seq<ItemView>, more: Seq<ItemView>)
    ensures
        created_in(items + more) == created_in(items) + created_in(more),
    decreases more.len(),
{
    if more.len() == 0 {
        assert(items + more =~= items);
        assert(created_in(items) + created_in(more) =~= created_in(items));
    } else {
        lemma_created_push(items, more.drop_last());
        assert((items + more).drop_last() =~= items + more.drop_last());
        assert((items + more).last() == more.last());
        let p = created_in(items) + created_in(more.drop_last());
        match more.last() {
            ItemView::New(i) => match i.2 {
                Some(r) => assert(p.push(r) =~= created_in(items) + created_in(more.drop_last()).push(r)),
                None => {},
            },
            _ => {},
        }
    }
}

proof fn lemma_step_fresh(plan: Seq<VarSplit>, st: RwState, idx: int, inst: InstView)
    requires
        rw_step(plan, st, idx, inst) is Ok,
    ensures
        ({
            let (s2, more) = rw_step(plan, st, idx, inst)->Ok_0;
            st.next <= s2.next && fresh_run(created_in(more), st.next as int, s2.next as int)
        }),
{
    let (s2, more) = rw_step(plan, st, idx, inst)->Ok_0;
    reveal_with_fuel(created_in, 3);
    if more.len() == 2 {
        assert(more.drop_last().drop_last() =~= Seq::<ItemView>::empty());
    }
}

proof fn lemma_block_fresh(plan: Seq<VarSplit>, st: RwState, insts: Seq<InstView>)
    requires
        rw_block(plan, st, insts) is Ok,
    ensures
        ({
            let (s2, items) = rw_block(plan, st, insts)->Ok_0;
            st.next <= s2.next && fresh_run(created_in(items), st.next as int, s2.next as int)
        }),
    decreases insts.len(),
{
    if insts.len() == 0 {
        assert(created_in(Seq::<ItemView>::empty()) =~= Seq::<u32>::empty());
    } else {
        lemma_block_fresh(plan, st, insts.drop_last());
        let (s, items) = rw_block(plan, st, insts.drop_last())->Ok_0;
        lemma_step_fresh(plan, s, insts.len() - 1, insts.last());
        let (s2, more) = rw_step(plan, s, insts.len() - 1, insts.last())->Ok_0;
        lemma_created_push(items, more);
        lemma_fresh_run_append(created_in(items), created_in(more), st.next as int, s.next as int, s2.next as int);
    }
}

proof fn lemma_blocks_fresh(plan: Seq<VarSplit>, next: u32, blocks: Seq<Seq<InstView>>)
    requires
        rw_blocks(plan, next, blocks) is Ok,
    ensures
        ({
            let (n, bs) = rw_blocks(plan, next, blocks)->Ok_0;
            next <= n && fresh_run(created_in_blocks(bs), next as int, n as int)
        }),
    decreases blocks.len(),
{
    if blocks.len() == 0 {
        assert(created_in_blocks(Seq::<Seq<ItemView>>::empty()) =~= Seq::<u32>::empty());
    } else {
        lemma_blocks_fresh(plan, next, blocks.drop_last());
        let (n1, done) = rw_blocks(plan, next, blocks.drop_last())->Ok_0;
        lemma_block_fresh(plan, block_start(n1), blocks.last());
        let (s, items) = rw_block(plan, block_start(n1), blocks.last())->Ok_0;
        assert(done.push(items).drop_last() =~= done);
        lemma_fresh_run_append(created_in_blocks(done), created_in(items), next as int, n1 as int, s.next as int);
    }
}

proof fn lemma_result_ids_push(a: Seq<InstView>, i: InstView)
    ensures
        result_ids(a.push(i)) == result_ids(a) + (match i.2 { Some(r) => seq![r], None => Seq::<u32>::empty() }),
{
    assert(a.push(i).drop_last() =~= a);
    match i.2 {
        Some(r) => assert(result_ids(a).push(r) =~= result_ids(a) + seq![r]),
        None => assert(result_ids(a) + Seq::<u32>::empty() =~= result_ids(a)),
    }
}

proof fn lemma_fresh_run_push(s: Seq<u32>, x: u32, lo: int, hi: int)
    requires
        fresh_run(s, lo, x as int),
        lo <= x < hi,
    ensures
        fresh_run(s.push(x), lo, hi),
{
    assert(fresh_run(seq![x], x as int, hi));
    assert(s.push(x) =~= s + seq![x]);
    lemma_fresh_run_append(s, seq![x], lo, x as int, hi);
}

proof fn lemma_plan_fresh(names: Seq<InstView>, p: GlobalPlan, ss: Seq<SamplerSplit>, lo: int)
    requires
        gp_fold(names, p, ss) is Some,
        lo <= p.next,
        fresh_run(result_ids(p.added), lo, p.next as int),
    ensures
        p.next <= gp_fold(names, p, ss)->0.next,
        fresh_run(result_ids(gp_fold(names, p, ss)->0.added), lo, gp_fold(names, p, ss)->0.next as int),
    decreases ss.len(),
{
    if ss.len() > 0 {
        lemma_plan_fresh(names, p, ss.drop_last(), lo);
        let q = gp_fold(names, p, ss.drop_last())->0;
        let s = ss.last();
        let q2 = gp_step(names, q, s)->0;
        let cv = s.var;
        match lookup(q.image_ptrs, cv.image_type_id) {
            Some(x) => {
                let v = (OP_VARIABLE, Some(q.sampler_ptr), Some(q.next), seq![OperandVal::StorageClass(STORAGE_UNIFORM_CONSTANT)]);
                lemma_result_ids_push(q.added, v);
                lemma_fresh_run_push(result_ids(q.added), q.next, lo, q.next + 1);
                assert(result_ids(q.added) + seq![q.next] =~= result_ids(q.added).push(q.next));
            },
            None => {
                let pi = pointer_inst(q.next, cv.image_type_id);
                let a1 = q.added.push(pi);
                lemma_result_ids_push(q.added, pi);
                assert(result_ids(q.added) + seq![q.next] =~= result_ids(q.added).push(q.next));
                lemma_fresh_run_push(result_ids(q.added), q.next, lo, q.next + 1);
                let v = (OP_VARIABLE, Some(q.sampler_ptr), Some((q.next + 1) as u32), seq![OperandVal::StorageClass(STORAGE_UNIFORM_CONSTANT)]);
                lemma_result_ids_push(a1, v);
                assert(result_ids(a1) + seq![(q.next + 1) as u32] =~= result_ids(a1).push((q.next + 1) as u32));
                lemma_fresh_run_push(result_ids(a1), (q.next + 1) as u32, lo, q.next + 2);
            },
        }
    }
}

/// Every id the split creates is new: the new types, variables, loads and
/// rebuilt sampled images get ids, in the order they are made, that strictly
/// increase (so no two are equal), that all lie above every id the module
/// mentions, and below the id counter the split ends with (which the new
/// header bound covers).
pub proof fn lemma_split_ids_fresh(bound: Option<u32>, all: Seq<InstView>, names: Seq<InstView>, g: Seq<InstView>,
    ss: Seq<SamplerSplit>, blocks: Seq<Seq<InstView>>)
    requires
        below_max_ids(all),
        global_plan(g, names, ss, first_free_id(bound_or_one(bound), all) as u32) is Some,
        rw_blocks(global_plan(g, names, ss, first_free_id(bound_or_one(bound), all) as u32)->0.plan,
            global_plan(g, names, ss, first_free_id(bound_or_one(bound), all) as u32)->0.next, blocks) is Ok,
    ensures
        ({
            let p = global_plan(g, names, ss, first_free_id(bound_or_one(bound), all) as u32)->0;
            let (n, items) = rw_blocks(p.plan, p.next, blocks)->Ok_0;
            let created = result_ids(p.added) + created_in_blocks(items);
            &&& forall|i: int, j: int| 0 <= i < j < created.len() ==> created[i] < created[j]
            &&& forall|k: int| 0 <= k < created.len() ==> #[trigger] created[k] < n
            &&& forall|k: int, i: int, m: int| 0 <= k < created.len() && 0 <= i < all.len() && 0 <= m < mentioned_ids(all[i]).len()
                ==> #[trigger] mentioned_ids(all[i])[m] < #[trigger] created[k]
            &&& (match new_bound(bound, n) { Some(b) => n <= b, None => true })
        }),
{
    let start = first_free_id(bound_or_one(bound), all);
    lemma_first_free_bounds(bound_or_one(bound), all);
    let next = start as u32;
    let p0 = gp_start(g, next)->0;
    let st = sampler_table(g);
    if st.len() > 0 {
        let pi = pointer_inst(next, st[0]);
        lemma_result_ids_push(Seq::<InstView>::empty(), pi);
        assert(result_ids(Seq::<InstView>::empty()) =~= Seq::<u32>::empty());
        assert(Seq::<u32>::empty() + seq![next] =~= seq![next]);
        assert(fresh_run(seq![next], start as int, next + 1));
    } else {
        let si = (OP_TYPE_SAMPLER, None::<u32>, Some(next), Seq::<OperandVal>::empty());
        lemma_result_ids_push(Seq::<InstView>::empty(), si);
        assert(result_ids(Seq::<InstView>::empty()) =~= Seq::<u32>::empty());
        assert(Seq::<u32>::empty() + seq![next] =~= seq![next]);
        let a1 = seq![si];
        assert(Seq::<InstView>::empty().push(si) =~= a1);
        let pi = pointer_inst((next + 1) as u32, next);
        lemma_result_ids_push(a1, pi);
        assert(result_ids(a1) == seq![next]);
        assert(seq![next] + seq![(next + 1) as u32] =~= seq![next, (next + 1) as u32]);
        assert(a1.push(pi) =~= p0.added);
        assert(fresh_run(seq![next, (next + 1) as u32], start as int, next + 2));
    }
    lemma_plan_fresh(names, p0, ss, start as int);
    let p = global_plan(g, names, ss, next)->0;
    lemma_blocks_fresh(p.plan, p.next, blocks);
    let (n, items) = rw_blocks(p.plan, p.next, blocks)->Ok_0;
    lemma_fresh_run_append(result_ids(p.added), created_in_blocks(items), start as int, p.next as int, n as int);
    let created = result_ids(p.added) + created_in_blocks(items);
    assert forall|k: int, i: int, m: int| 0 <= k < created.len() && 0 <= i < all.len() && 0 <= m < mentioned_ids(all[i]).len()
        implies #[trigger] mentioned_ids(all[i])[m] < #[trigger] created[k] by {
        lemma_first_free_above(bound_or_one(bound), all, i, m);
    }
}

proof fn lemma_first_free_bounds(start: nat, insts: Seq<InstView>)
    requires
        start <= u32::MAX,
        below_max_ids(insts),
    ensures
        start <= first_free_id(start, insts) <= u32::MAX,
    decreases insts.len(),
{
    if insts.len() > 0 {
        assert(below_max_ids(insts.drop_last())) by {
            assert forall|i: int, k: int| 0 <= i < insts.drop_last().len() && 0 <= k < mentioned_ids(insts.drop_last()[i]).len()
                implies #[trigger] mentioned_ids(insts.drop_last()[i])[k] < u32::MAX by {
                assert(insts.drop_last()[i] == insts[i]);
            }
        }
        lemma_first_free_bounds(start, insts.drop_last());
        let ids = mentioned_ids(insts.last());
        assert forall|k: int| 0 <= k < ids.len() implies #[trigger] ids[k] < u32::MAX by {
            assert(mentioned_ids(insts[insts.len() - 1])[k] < u32::MAX);
        }
        lemma_above_all_bounded(first_free_id(start, insts.drop_last()), ids);
    }
}

proof fn lemma_above_all_above(m: nat, ids: Seq<u32>, k: int)
    requires
        0 <= k < ids.len(),
    ensures
        ids[k] < above_all(m, ids),
        m <= above_all(m, ids),
    decreases ids.len(),
{
    if k < ids.len() - 1 {
        lemma_above_all_above(m, ids.drop_last(), k);
        assert(ids.drop_last()[k] == ids[k]);
    } else if ids.len() > 1 {
        lemma_above_all_above(m, ids.drop_last(), 0);
    }
}

proof fn lemma_above_all_grows(m: nat, ids: Seq<u32>)
    ensures
        m <= above_all(m, ids),
    decreases ids.len(),
{
    if ids.len() > 0 {
        lemma_above_all_grows(m, ids.drop_last());
    }
}

/// Every id the module mentions lies below its first free id.
proof fn lemma_first_free_above(start: nat, insts: Seq<InstView>, i: int, m: int)
    requires
        0 <= i < insts.len(),
        0 <= m < mentioned_ids(insts[i]).len(),
    ensures
        mentioned_ids(insts[i])[m] < first_free_id(start, insts),
    decreases insts.len(),
{
    let prev = first_free_id(start, insts.drop_last());
    lemma_above_all_grows(prev, mentioned_ids(insts.last()));
    if i == insts.len() - 1 {
        lemma_above_all_above(prev, mentioned_ids(insts.last()), m);
    } else {
        assert(insts.drop_last()[i] == insts[i]);
        lemma_first_free_above(start, insts.drop_last(), i, m);
    }
}


// ---------------------------------------------------------------------------
// Every combined variable is split

/// The parts of plan `p` for split `s`, the `k`-th: the variable retyped to a
/// pointer to its image type, and a new sampler variable of the shared
/// pointer-to-sampler type, decorated with the split's set and binding.
pub open spec fn split_done(p: GlobalPlan, s: SamplerSplit, k: int) -> bool {
    let sv = p.plan[k].sampler_var_id;
    &&& p.retype[k].0 == s.var.var_id
    &&& p.added.contains(pointer_inst(p.retype[k].1, s.var.image_type_id))
    &&& p.plan[k] == (VarSplit { var_id: s.var.var_id, image_type_id: s.var.image_type_id, sampler_var_id: sv,
            sampler_type_id: p.sampler_type })
    &&& p.added.contains((OP_VARIABLE, Some(p.sampler_ptr), Some(sv), seq![OperandVal::StorageClass(STORAGE_UNIFORM_CONSTANT)]))
    &&& p.decorations.contains(decorate_inst(sv, DECORATION_DESCRIPTOR_SET, s.set))
    &&& p.decorations.contains(decorate_inst(sv, DECORATION_BINDING, s.binding))
}

proof fn lemma_contains_push<A>(s: Seq<A>, x: A, y: A)
    ensures
        s.contains(y) ==> s.push(x).contains(y),
        s.push(x).contains(x),
{
    if s.contains(y) {
        let i = choose|i: int| 0 <= i < s.len() && s[i] == y;
        assert(s.push(x)[i] == y);
    }
    assert(s.push(x)[s.len() as int] == x);
}

proof fn lemma_fold_splits(names: Seq<InstView>, p: GlobalPlan, ss: Seq<SamplerSplit>)
    requires
        gp_fold(names, p, ss) is Some,
        p.retype.len() == p.plan.len(),
        image_ptrs_added(p),
    ensures
        ({
            let q = gp_fold(names, p, ss)->0;
            &&& image_ptrs_added(q)
            &&& q.retype.len() == p.retype.len() + ss.len()
            &&& q.plan.len() == p.plan.len() + ss.len()
            &&& q.sampler_ptr == p.sampler_ptr
            &&& q.sampler_type == p.sampler_type
            &&& forall|x: InstView| p.added.contains(x) ==> #[trigger] q.added.contains(x)
            &&& forall|x: InstView| p.decorations.contains(x) ==> #[trigger] q.decorations.contains(x)
            &&& forall|k: int| 0 <= k < p.plan.len() ==> q.plan[k] == p.plan[k] && q.retype[k] == p.retype[k]
            &&& forall|k: int| 0 <= k < ss.len() ==> #[trigger] split_done(q, ss[k], p.plan.len() + k)
        }),
    decreases ss.len(),
{
    if ss.len() > 0 {
        lemma_fold_splits(names, p, ss.drop_last());
        let q = gp_fold(names, p, ss.drop_last())->0;
        let s = ss.last();
        let q2 = gp_step(names, q, s)->0;
        let cv = s.var;
        let n = q.plan.len() as int;
        let (ip, n1, added1) = match lookup(q.image_ptrs, cv.image_type_id) {
            Some(x) => (x, q.next as int, q.added),
            None => (q.next, q.next + 1, q.added.push(pointer_inst(q.next, cv.image_type_id))),
        };
        let sv = n1 as u32;
        let var = (OP_VARIABLE, Some(q.sampler_ptr), Some(sv), seq![OperandVal::StorageClass(STORAGE_UNIFORM_CONSTANT)]);
        assert forall|x: InstView| q.added.contains(x) implies #[trigger] q2.added.contains(x) by {
            match lookup(q.image_ptrs, cv.image_type_id) {
                Some(_) => lemma_contains_push(q.added, var, x),
                None => {
                    lemma_contains_push(q.added, pointer_inst(q.next, cv.image_type_id), x);
                    lemma_contains_push(added1, var, x);
                },
            }
        }
        let d1 = decorate_inst(sv, DECORATION_DESCRIPTOR_SET, s.set);
        let d2 = decorate_inst(sv, DECORATION_BINDING, s.binding);
        assert forall|x: InstView| q.decorations.contains(x) implies #[trigger] q2.decorations.contains(x) by {
            lemma_contains_push(q.decorations, d1, x);
            lemma_contains_push(q.decorations.push(d1), d2, x);
        }
        lemma_contains_push(q.decorations, d1, d1);
        lemma_contains_push(q.decorations.push(d1), d2, d1);
        lemma_contains_push(added1, var, var);
        match lookup(q.image_ptrs, cv.image_type_id) {
            Some(_) => {
                lemma_image_ptr_present(q, cv.image_type_id);
                lemma_contains_push(q.added, var, pointer_inst(ip, cv.image_type_id));
            },
            None => {
                lemma_contains_push(q.added, pointer_inst(q.next, cv.image_type_id), pointer_inst(q.next, cv.image_type_id));
                lemma_contains_push(added1, var, pointer_inst(q.next, cv.image_type_id));
            },
        }
        assert forall|i: int| 0 <= i < q2.image_ptrs.len()
            implies q2.added.contains(pointer_inst(#[trigger] q2.image_ptrs[i].1, q2.image_ptrs[i].0)) by {
            if i < q.image_ptrs.len() {
                assert(q2.image_ptrs[i] == q.image_ptrs[i]);
                assert(q.added.contains(pointer_inst(q.image_ptrs[i].1, q.image_ptrs[i].0)));
            }
        }
        assert(split_done(q2, s, n));
        assert forall|k: int| 0 <= k < ss.len() implies #[trigger] split_done(q2, ss[k], p.plan.len() + k) by {
            if k < ss.len() - 1 {
                assert(ss.drop_last()[k] == ss[k]);
                assert(split_done(q, ss[k], p.plan.len() + k));
                let j = p.plan.len() + k;
                assert(q2.plan[j] == q.plan[j]);
                assert(q2.retype[j] == q.retype[j]);
                let svk = q.plan[j].sampler_var_id;
                assert(q2.added.contains(pointer_inst(q.retype[j].1, ss[k].var.image_type_id)));
                assert(q2.added.contains((OP_VARIABLE, Some(q.sampler_ptr), Some(svk), seq![OperandVal::StorageClass(STORAGE_UNIFORM_CONSTANT)])));
                assert(q2.decorations.contains(decorate_inst(svk, DECORATION_DESCRIPTOR_SET, ss[k].set)));
                assert(q2.decorations.contains(decorate_inst(svk, DECORATION_BINDING, ss[k].binding)));
            }
        }
    }
}

/// A pointer recorded for an image type is among the added instructions.
pub open spec fn image_ptrs_added(p: GlobalPlan) -> bool {
    forall|i: int| 0 <= i < p.image_ptrs.len() ==> p.added.contains(pointer_inst(#[trigger] p.image_ptrs[i].1, p.image_ptrs[i].0))
}

proof fn lemma_image_ptr_present(q: GlobalPlan, image: u32)
    requires
        image_ptrs_added(q),
        lookup(q.image_ptrs, image) is Some,
    ensures
        q.added.contains(pointer_inst(lookup(q.image_ptrs, image)->0, image)),
{
    lemma_lookup_index(q.image_ptrs, image);
    let i = choose|i: int| 0 <= i < q.image_ptrs.len() && q.image_ptrs[i] == (image, lookup(q.image_ptrs, image)->0);
    assert(q.added.contains(pointer_inst(q.image_ptrs[i].1, q.image_ptrs[i].0)));
}

proof fn lemma_lookup_index(s: Seq<(u32, u32)>, k: u32)
    requires
        lookup(s, k) is Some,
    ensures
        exists|i: int| 0 <= i < s.len() && s[i] == (k, lookup(s, k)->0),
    decreases s.len(),
{
    if s.last().0 == k {
        assert(s[s.len() - 1] == (k, lookup(s, k)->0));
    } else {
        lemma_lookup_index(s.drop_last(), k);
        let i = choose|i: int| 0 <= i < s.drop_last().len() && s.drop_last()[i] == (k, lookup(s.drop_last(), k)->0);
        assert(s[i] == (k, lookup(s, k)->0));
    }
}

/// Every combined variable is split: the `k`-th gets its variable retyped to
/// a pointer to its image type, and a new sampler variable (of the shared
/// pointer-to-sampler type) decorated with its own set and binding, so no
/// combined variable of the module is left.
pub proof fn lemma_every_combined_variable_split(g: Seq<InstView>, names: Seq<InstView>, ss: Seq<SamplerSplit>, next: u32)
    requires
        global_plan(g, names, ss, next) is Some,
    ensures
        ({
            let p = global_plan(g, names, ss, next)->0;
            &&& p.plan.len() == ss.len()
            &&& p.retype.len() == ss.len()
            &&& forall|k: int| 0 <= k < ss.len() ==> #[trigger] split_done(p, ss[k], k)
            &&& p.added.contains(pointer_inst(p.sampler_ptr, p.sampler_type))
        }),
{
    let p0 = gp_start(g, next)->0;
    lemma_fold_splits(names, p0, ss);
    let q = global_plan(g, names, ss, next)->0;
    let st = sampler_table(g);
    if st.len() > 0 {
        lemma_contains_push(Seq::<InstView>::empty(), pointer_inst(p0.sampler_ptr, p0.sampler_type), pointer_inst(p0.sampler_ptr, p0.sampler_type));
    } else {
        let si = (OP_TYPE_SAMPLER, None::<u32>, Some(next), Seq::<OperandVal>::empty());
        lemma_contains_push(seq![si], pointer_inst(p0.sampler_ptr, p0.sampler_type), pointer_inst(p0.sampler_ptr, p0.sampler_type));
        assert(seq![si].push(pointer_inst(p0.sampler_ptr, p0.sampler_type)) =~= p0.added);
    }
    assert(p0.added.contains(pointer_inst(p0.sampler_ptr, p0.sampler_type)));
    assert(q.added.contains(pointer_inst(q.sampler_ptr, q.sampler_type)));
    assert forall|k: int| 0 <= k < ss.len() implies #[trigger] split_done(q, ss[k], k) by {
        assert(split_done(q, ss[k], p0.plan.len() + k));
    }
}

} // verus!
