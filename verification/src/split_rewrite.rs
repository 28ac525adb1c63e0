//! The rewriting half of splitting combined image-samplers: every edit the
//! split makes to a module, decided over plain instruction values. Each
//! function body's loads of a combined variable become an image load plus a
//! sampler load, and every consumer of the combined value is re-wired.

use vstd::prelude::*;
use crate::spirv_model::{OperandVal, SpirvInst, InstView, insts_view};
use crate::split::{classify_consumer, consumer_kind, ConsumerKind, IdAllocator, SplitError};
use crate::text::{push_lit, push_decimal, decimal_chars, string_from_chars};
use rspirv::spirv::Op;
use std::collections::HashMap;

verus! {

broadcast use vstd::std_specs::hash::group_hash_axioms;

/// SPIR-V opcode `OpLoad`.
pub const OP_LOAD: u32 = 61;
/// SPIR-V opcode `OpSampledImage`.
pub const OP_SAMPLED_IMAGE: u32 = 86;
/// SPIR-V opcode `OpImage`.
pub const OP_IMAGE: u32 = 100;

/// What one combined variable is split into: the image type it now points
/// at, and the sampler variable (with its sampler type) created beside it.
#[derive(Debug, Clone, Copy, PartialEq, Eq, Structural)]
pub struct VarSplit {
    pub var_id: u32,
    pub image_type_id: u32,
    pub sampler_var_id: u32,
    pub sampler_type_id: u32,
}

/// A combined value after its load was split: the image load (which keeps
/// the original result id), the sampler load, and the sampled-image type to
/// rebuild the combined value with.
#[derive(Debug, Clone, Copy, PartialEq, Eq, Structural)]
pub struct SplitValue {
    pub image_id: u32,
    pub sampler_id: u32,
    pub sampled_image_type: u32,
}

/// Why a function body cannot be rewritten.
#[derive(Debug, Clone, Copy, PartialEq, Eq, Structural)]
pub enum RewriteFault {
    /// A new id would pass the largest 32-bit id.
    IdsExhausted,
    /// A combined value reached this opcode, which is not a known consumer.
    UnsupportedConsumer(u32),
    /// A combined value flowed into this operand (past the first) of this
    /// opcode.
    UnsupportedUse { opcode: u32, operand: usize },
}

/// One instruction of a rewritten block: an instruction of the input block
/// (by index) kept, given a new result type, or with its first operand
/// repointed at another id; or a new instruction.
#[derive(Debug, Clone, PartialEq, Eq)]
pub enum BlockItem {
    Keep(usize),
    Retyped(usize, u32),
    Repointed(usize, u32),
    New(SpirvInst),
}

/// The content of a [`BlockItem`].
pub enum ItemView {
    Keep(int),
    Retyped(int, u32),
    Repointed(int, u32),
    New(InstView),
}

impl View for BlockItem {
    type V = ItemView;

    open spec fn view(&self) -> ItemView {
        match self {
            BlockItem::Keep(i) => ItemView::Keep(*i as int),
            BlockItem::Retyped(i, t) => ItemView::Retyped(*i as int, *t),
            BlockItem::Repointed(i, t) => ItemView::Repointed(*i as int, *t),
            BlockItem::New(inst) => ItemView::New(inst@),
        }
    }
}

/// The items of a list, by their content.
pub open spec fn items_view(v: Seq<BlockItem>) -> Seq<ItemView> {
    v.map_values(|b: BlockItem| b@)
}

/// The value last recorded for `k` (a later entry replaces an earlier one).
pub open spec fn lookup<V>(s: Seq<(u32, V)>, k: u32) -> Option<V>
    decreases s.len(),
{
    if s.len() == 0 {
        None
    } else if s.last().0 == k {
        Some(s.last().1)
    } else {
        lookup(s.drop_last(), k)
    }
}

/// The split of combined variable `p`, if it is one.
pub open spec fn var_split_of(plan: Seq<VarSplit>, p: u32) -> Option<VarSplit>
    decreases plan.len(),
{
    if plan.len() == 0 {
        None
    } else if plan.last().var_id == p {
        Some(plan.last())
    } else {
        var_split_of(plan.drop_last(), p)
    }
}

/// The rewrite's state within a block: the split values, the `OpImage`
/// results forwarded to an image load, and the next fresh id.
pub struct RwState {
    pub split: Seq<(u32, SplitValue)>,
    pub fwd: Seq<(u32, u32)>,
    pub next: u32,
}

/// The id `id` stands for: an `OpImage` result is forwarded to its image load.
pub open spec fn resolve(fwd: Seq<(u32, u32)>, id: u32) -> u32 {
    match lookup(fwd, id) {
        Some(t) => t,
        None => id,
    }
}

/// The split value that id `id` carries, if any.
pub open spec fn split_of(split: Seq<(u32, SplitValue)>, fwd: Seq<(u32, u32)>, id: u32) -> Option<SplitValue> {
    lookup(split, resolve(fwd, id))
}

/// The id that operand `i` references, if it is an id reference.
pub open spec fn id_at(ops: Seq<OperandVal>, i: int) -> Option<u32> {
    if 0 <= i < ops.len() {
        match ops[i] {
            OperandVal::IdRef(x) => Some(x),
            _ => None,
        }
    } else {
        None
    }
}

/// The first operand from position `i` on that carries a split value.
pub open spec fn first_split_use(split: Seq<(u32, SplitValue)>, fwd: Seq<(u32, u32)>, ops: Seq<OperandVal>, i: nat) -> Option<nat>
    decreases ops.len() - i,
{
    if i >= ops.len() {
        None
    } else if (match id_at(ops, i as int) {
        Some(x) => split_of(split, fwd, x) is Some,
        None => false,
    }) {
        Some(i)
    } else {
        first_split_use(split, fwd, ops, i + 1)
    }
}

/// The combined variable that `inst` loads, if it is such a load.
pub open spec fn loaded_split(plan: Seq<VarSplit>, inst: InstView) -> Option<VarSplit> {
    if inst.0 == OP_LOAD {
        match id_at(inst.3, 0) {
            Some(p) => var_split_of(plan, p),
            None => None,
        }
    } else {
        None
    }
}

/// The rewrite of instruction `idx` of a block, `inst`:
/// - a load of a combined variable becomes the same load retyped to the
///   image, followed by a load of the sampler variable into a fresh id;
/// - a consumer of a split value at its first operand is re-wired by its
///   kind: `OpImage` is dropped and its result forwarded to the image load,
///   an image consumer is repointed at the image load, a sampled-image
///   consumer is preceded by an `OpSampledImage` rebuilt into a fresh id and
///   repointed at it, and any other opcode is refused;
/// - a split value in any later operand is refused;
/// - anything else is kept.
pub open spec fn rw_step(plan: Seq<VarSplit>, st: RwState, idx: int, inst: InstView) -> Result<(RwState, Seq<ItemView>), RewriteFault> {
    let (op, rt, rid, ops) = inst;
    match loaded_split(plan, inst) {
        Some(vs) => if st.next == u32::MAX {
            Err(RewriteFault::IdsExhausted)
        } else {
            let sv = SplitValue { image_id: rid->0, sampler_id: st.next, sampled_image_type: rt->0 };
            Ok((
                RwState { split: st.split.push((rid->0, sv)), fwd: st.fwd, next: (st.next + 1) as u32 },
                seq![
                    ItemView::Retyped(idx, vs.image_type_id),
                    ItemView::New((OP_LOAD, Some(vs.sampler_type_id), Some(st.next), seq![OperandVal::IdRef(vs.sampler_var_id)])),
                ],
            ))
        },
        None => match (match id_at(ops, 0) {
            Some(x) => split_of(st.split, st.fwd, x),
            None => None,
        }) {
            Some(sv) => match consumer_kind(op) {
                Some(ConsumerKind::ImageExtract) => Ok((
                    RwState { split: st.split, fwd: st.fwd.push((rid->0, sv.image_id)), next: st.next },
                    Seq::empty(),
                )),
                Some(ConsumerKind::Image) => Ok((st, seq![ItemView::Repointed(idx, sv.image_id)])),
                Some(ConsumerKind::SampledImage) => if st.next == u32::MAX {
                    Err(RewriteFault::IdsExhausted)
                } else {
                    Ok((
                        RwState { split: st.split, fwd: st.fwd, next: (st.next + 1) as u32 },
                        seq![
                            ItemView::New((OP_SAMPLED_IMAGE, Some(sv.sampled_image_type), Some(st.next),
                                seq![OperandVal::IdRef(sv.image_id), OperandVal::IdRef(sv.sampler_id)])),
                            ItemView::Repointed(idx, st.next),
                        ],
                    ))
                },
                None => Err(RewriteFault::UnsupportedConsumer(op)),
            },
            None => match first_split_use(st.split, st.fwd, ops, 1) {
                Some(i) => Err(RewriteFault::UnsupportedUse { opcode: op, operand: i as usize }),
                None => Ok((st, seq![ItemView::Keep(idx)])),
            },
        },
    }
}

/// The rewrite of a block's instructions `insts`, from state `st`.
pub open spec fn rw_block(plan: Seq<VarSplit>, st: RwState, insts: Seq<InstView>) -> Result<(RwState, Seq<ItemView>), RewriteFault>
    decreases insts.len(),
{
    if insts.len() == 0 {
        Ok((st, Seq::empty()))
    } else {
        match rw_block(plan, st, insts.drop_last()) {
            Err(e) => Err(e),
            Ok((s, items)) => match rw_step(plan, s, insts.len() - 1, insts.last()) {
                Err(e) => Err(e),
                Ok((s2, more)) => Ok((s2, items + more)),
            },
        }
    }
}

/// The state a block's rewrite starts from: nothing split yet, fresh ids
/// from `next`.
pub open spec fn block_start(next: u32) -> RwState {
    RwState { split: Seq::empty(), fwd: Seq::empty(), next }
}

/// Every load has a result id and type, and every `OpImage` a result id.
pub open spec fn results_present(insts: Seq<InstView>) -> bool {
    forall|i: int| 0 <= i < insts.len() ==> {
        let (op, rt, rid, _) = #[trigger] insts[i];
        &&& (op == OP_LOAD ==> rt is Some && rid is Some)
        &&& (op == OP_IMAGE ==> rid is Some)
    }
}

/// Once a block's rewrite fails on a prefix, it fails the same way on the
/// whole block.
proof fn lemma_rw_block_err(plan: Seq<VarSplit>, st: RwState, insts: Seq<InstView>, k: int)
    requires
        0 <= k <= insts.len(),
        rw_block(plan, st, insts.take(k)) is Err,
    ensures
        rw_block(plan, st, insts) == rw_block(plan, st, insts.take(k)),
    decreases insts.len() - k,
{
    if k == insts.len() {
        assert(insts.take(k) =~= insts);
    } else {
        assert(insts.take(k + 1).drop_last() =~= insts.take(k));
        lemma_rw_block_err(plan, st, insts, k + 1);
    }
}

/// The map a list of id/value pairs makes, later pairs overriding earlier.
pub open spec fn pairs_map<V>(s: Seq<(u32, V)>) -> Map<u32, V>
    decreases s.len(),
{
    if s.len() == 0 {
        Map::empty()
    } else {
        pairs_map(s.drop_last()).insert(s.last().0, s.last().1)
    }
}

proof fn lemma_lookup_pairs_map<V>(s: Seq<(u32, V)>, k: u32)
    ensures
        lookup(s, k) == (if pairs_map(s).contains_key(k) { Some(pairs_map(s)[k]) } else { None }),
    decreases s.len(),
{
    if s.len() > 0 {
        lemma_lookup_pairs_map(s.drop_last(), k);
    }
}

/// Id-keyed entries held in a hash map, together with the list of insertions
/// that made them (which the specification reads).
struct IdMap<V> {
    map: HashMap<u32, V>,
    pairs: Ghost<Seq<(u32, V)>>,
}

impl<V: Copy> IdMap<V> {
    spec fn pairs(&self) -> Seq<(u32, V)> {
        self.pairs@
    }

    spec fn wf(&self) -> bool {
        self.map@ == pairs_map(self.pairs@)
    }

    fn new() -> (m: Self)
        ensures
            m.wf(),
            m.pairs() == Seq::<(u32, V)>::empty(),
    {
        let m = IdMap { map: HashMap::new(), pairs: Ghost(Seq::empty()) };
        assert(m.map@ =~= pairs_map(Seq::<(u32, V)>::empty()));
        m
    }

    fn insert(&mut self, k: u32, v: V)
        requires
            old(self).wf(),
        ensures
            final(self).wf(),
            final(self).pairs() == old(self).pairs().push((k, v)),
    {
        self.map.insert(k, v);
        let ghost p = self.pairs@.push((k, v));
        assert(p.drop_last() =~= self.pairs@);
        self.pairs = Ghost(p);
    }

    fn get(&self, k: u32) -> (r: Option<V>)
        requires
            self.wf(),
        ensures
            r == lookup(self.pairs(), k),
    {
        proof { lemma_lookup_pairs_map(self.pairs@, k); }
        match self.map.get(&k) {
            Some(v) => Some(*v),
            None => None,
        }
    }
}

fn var_split_exec(plan: &Vec<VarSplit>, p: u32) -> (r: Option<VarSplit>)
    ensures
        r == var_split_of(plan@, p),
{
    let mut i: usize = plan.len();
    assert(plan@.take(i as int) =~= plan@);
    while i > 0
        invariant
            i <= plan@.len(),
            var_split_of(plan@, p) == var_split_of(plan@.take(i as int), p),
        decreases i,
    {
        assert(plan@.take(i as int).drop_last() =~= plan@.take(i - 1));
        assert(plan@.take(i as int).last() == plan@[i - 1]);
        if plan[i - 1].var_id == p {
            return Some(plan[i - 1]);
        }
        i = i - 1;
    }
    None
}

fn id_at_exec(ops: &Vec<OperandVal>, i: usize) -> (r: Option<u32>)
    ensures
        r == id_at(ops@, i as int),
{
    if i < ops.len() {
        match ops[i] {
            OperandVal::IdRef(x) => Some(x),
            _ => None,
        }
    } else {
        None
    }
}

fn split_of_exec(split: &IdMap<SplitValue>, fwd: &IdMap<u32>, id: u32) -> (r: Option<SplitValue>)
    requires
        split.wf(),
        fwd.wf(),
    ensures
        r == split_of(split.pairs(), fwd.pairs(), id),
{
    let t = match fwd.get(id) {
        Some(t) => t,
        None => id,
    };
    split.get(t)
}

fn first_split_use_exec(split: &IdMap<SplitValue>, fwd: &IdMap<u32>, ops: &Vec<OperandVal>) -> (r: Option<usize>)
    requires
        split.wf(),
        fwd.wf(),
    ensures
        match r {
            Some(i) => first_split_use(split.pairs(), fwd.pairs(), ops@, 1) == Some(i as nat),
            None => first_split_use(split.pairs(), fwd.pairs(), ops@, 1) is None,
        },
{
    let mut i: usize = 1;
    while i < ops.len()
        invariant
            1 <= i,
            split.wf(),
            fwd.wf(),
            first_split_use(split.pairs(), fwd.pairs(), ops@, 1) == first_split_use(split.pairs(), fwd.pairs(), ops@, i as nat),
        decreases ops@.len() - i,
    {
        let hit = match id_at_exec(ops, i) {
            Some(x) => split_of_exec(split, fwd, x).is_some(),
            None => false,
        };
        if hit {
            return Some(i);
        }
        i = i + 1;
    }
    None
}

/// Rewrite one block (see [`rw_step`]), drawing fresh ids from `ids`.
pub fn rewrite_block(plan: &Vec<VarSplit>, insts: &Vec<SpirvInst>, ids: &mut IdAllocator) -> (r: Result<Vec<BlockItem>, RewriteFault>)
    requires
        results_present(insts_view(insts@)),
    ensures
        match rw_block(plan@, block_start(old(ids).next_id), insts_view(insts@)) {
            Ok((s, items)) => r is Ok && items_view(r->Ok_0@) == items && final(ids).next_id == s.next,
            Err(e) => r == Err::<Vec<BlockItem>, RewriteFault>(e),
        },
{
    let ghost v = insts_view(insts@);
    let ghost start = block_start(ids.next_id);
    let mut split: IdMap<SplitValue> = IdMap::new();
    let mut fwd: IdMap<u32> = IdMap::new();
    let mut out: Vec<BlockItem> = Vec::new();
    let mut k: usize = 0;
    assert(v.take(0) =~= Seq::<InstView>::empty());
    assert(items_view(out@) =~= Seq::<ItemView>::empty());
    while k < insts.len()
        invariant
            k <= insts@.len(),
            v == insts_view(insts@),
            start == block_start(old(ids).next_id),
            results_present(v),
            split.wf(),
            fwd.wf(),
            rw_block(plan@, start, v.take(k as int)) == Ok::<(RwState, Seq<ItemView>), RewriteFault>(
                (RwState { split: split.pairs(), fwd: fwd.pairs(), next: ids.next_id }, items_view(out@))),
        decreases insts@.len() - k,
    {
        assert(v.take(k + 1).drop_last() =~= v.take(k as int));
        assert(v.take(k + 1).last() == v[k as int]);
        let inst = &insts[k];
        assert(inst@ == v[k as int]);
        let ghost st = RwState { split: split.pairs(), fwd: fwd.pairs(), next: ids.next_id };
        let ghost before = items_view(out@);
        let ghost mut added: Seq<ItemView> = Seq::empty();
        let load = if inst.opcode == OP_LOAD {
            match id_at_exec(&inst.operands, 0) {
                Some(p) => var_split_exec(plan, p),
                None => None,
            }
        } else {
            None
        };
        match load {
            Some(vs) => {
                if ids.next_id == u32::MAX {
                    proof {
                        assert(loaded_split(plan@, v[k as int]) == Some(vs));
                        assert(rw_step(plan@, st, k as int, v[k as int]) == Err::<(RwState, Seq<ItemView>), RewriteFault>(RewriteFault::IdsExhausted));
                        lemma_rw_block_err(plan@, start, v, (k + 1) as int);
                    }
                    return Err(RewriteFault::IdsExhausted);
                }
                let rid = inst.result_id.unwrap();
                let rt = inst.result_type.unwrap();
                let sid = ids.fresh();
                split.insert(rid, SplitValue { image_id: rid, sampler_id: sid, sampled_image_type: rt });
                let ghost mid = out@;
                out.push(BlockItem::Retyped(k, vs.image_type_id));
                let ops = vec![OperandVal::IdRef(vs.sampler_var_id)];
                assert(ops@ =~= seq![OperandVal::IdRef(vs.sampler_var_id)]);
                out.push(BlockItem::New(SpirvInst {
                    opcode: OP_LOAD,
                    result_type: Some(vs.sampler_type_id),
                    result_id: Some(sid),
                    operands: ops,
                }));
                assert(out@ == mid.push(BlockItem::Retyped(k, vs.image_type_id)).push(out@.last()));
                proof {
                    added = seq![
                        ItemView::Retyped(k as int, vs.image_type_id),
                        ItemView::New((OP_LOAD, Some(vs.sampler_type_id), Some(sid), seq![OperandVal::IdRef(vs.sampler_var_id)])),
                    ];
                    assert(items_view(out@) =~= before + added);
                }
            },
            None => {
                let first = match id_at_exec(&inst.operands, 0) {
                    Some(x) => split_of_exec(&split, &fwd, x),
                    None => None,
                };
                match first {
                    Some(sv) => {
                        match classify_consumer(inst.opcode) {
                            Some(ConsumerKind::ImageExtract) => {
                                let rid = inst.result_id.unwrap();
                                fwd.insert(rid, sv.image_id);
                                assert(items_view(out@) =~= before + added);
                            },
                            Some(ConsumerKind::Image) => {
                                out.push(BlockItem::Repointed(k, sv.image_id));
                                proof {
                                    added = seq![ItemView::Repointed(k as int, sv.image_id)];
                                    assert(items_view(out@) =~= before + added);
                                }
                            },
                            Some(ConsumerKind::SampledImage) => {
                                if ids.next_id == u32::MAX {
                                    proof { lemma_rw_block_err(plan@, start, v, (k + 1) as int); }
                                    return Err(RewriteFault::IdsExhausted);
                                }
                                let cid = ids.fresh();
                                out.push(BlockItem::New(SpirvInst {
                                    opcode: OP_SAMPLED_IMAGE,
                                    result_type: Some(sv.sampled_image_type),
                                    result_id: Some(cid),
                                    operands: vec![OperandVal::IdRef(sv.image_id), OperandVal::IdRef(sv.sampler_id)],
                                }));
                                out.push(BlockItem::Repointed(k, cid));
                                proof {
                                    added = seq![
                                        ItemView::New((OP_SAMPLED_IMAGE, Some(sv.sampled_image_type), Some(cid),
                                            seq![OperandVal::IdRef(sv.image_id), OperandVal::IdRef(sv.sampler_id)])),
                                        ItemView::Repointed(k as int, cid),
                                    ];
                                    assert(items_view(out@) =~= before + added);
                                }
                            },
                            None => {
                                proof {
                                    assert(rw_step(plan@, st, k as int, v[k as int]) == Err::<(RwState, Seq<ItemView>), RewriteFault>(
                                        RewriteFault::UnsupportedConsumer(inst.opcode)));
                                    lemma_rw_block_err(plan@, start, v, (k + 1) as int);
                                }
                                return Err(RewriteFault::UnsupportedConsumer(inst.opcode));
                            },
                        }
                    },
                    None => {
                        match first_split_use_exec(&split, &fwd, &inst.operands) {
                            Some(i) => {
                                proof {
                                    assert(loaded_split(plan@, v[k as int]) is None);
                                    assert(rw_step(plan@, st, k as int, v[k as int]) == Err::<(RwState, Seq<ItemView>), RewriteFault>(
                                        RewriteFault::UnsupportedUse { opcode: inst.opcode, operand: i }));
                                    lemma_rw_block_err(plan@, start, v, (k + 1) as int);
                                }
                                return Err(RewriteFault::UnsupportedUse { opcode: inst.opcode, operand: i });
                            },
                            None => {
                                out.push(BlockItem::Keep(k));
                                proof {
                                    added = seq![ItemView::Keep(k as int)];
                                    assert(items_view(out@) =~= before + added);
                                }
                            },
                        }
                    },
                }
            },
        }
        proof {
            let step = rw_step(plan@, st, k as int, v[k as int]);
            assert(step is Ok);
            assert(step->Ok_0.0 == (RwState { split: split.pairs(), fwd: fwd.pairs(), next: ids.next_id }));
            assert(step->Ok_0.1 == added);
        }
        k = k + 1;
    }
    assert(v.take(insts@.len() as int) =~= v);
    Ok(out)
}


/// The instructions of each block, by their content.
pub open spec fn blocks_view(b: Seq<Vec<SpirvInst>>) -> Seq<Seq<InstView>> {
    b.map_values(|v: Vec<SpirvInst>| insts_view(v@))
}

/// The rewrite of every block in turn, each from a fresh block state, the
/// fresh ids running on from one block to the next: the id counter after
/// them, and each block's items.
pub open spec fn rw_blocks(plan: Seq<VarSplit>, next: u32, blocks: Seq<Seq<InstView>>) -> Result<(u32, Seq<Seq<ItemView>>), RewriteFault>
    decreases blocks.len(),
{
    if blocks.len() == 0 {
        Ok((next, Seq::empty()))
    } else {
        match rw_blocks(plan, next, blocks.drop_last()) {
            Err(e) => Err(e),
            Ok((n, done)) => match rw_block(plan, block_start(n), blocks.last()) {
                Err(e) => Err(e),
                Ok((s, items)) => Ok((s.next, done.push(items))),
            },
        }
    }
}

/// Every block's instructions have their results (see [`results_present`]).
pub open spec fn blocks_results_present(blocks: Seq<Seq<InstView>>) -> bool {
    forall|b: int| 0 <= b < blocks.len() ==> results_present(#[trigger] blocks[b])
}

proof fn lemma_rw_blocks_err(plan: Seq<VarSplit>, next: u32, blocks: Seq<Seq<InstView>>, k: int)
    requires
        0 <= k <= blocks.len(),
        rw_blocks(plan, next, blocks.take(k)) is Err,
    ensures
        rw_blocks(plan, next, blocks) == rw_blocks(plan, next, blocks.take(k)),
    decreases blocks.len() - k,
{
    if k == blocks.len() {
        assert(blocks.take(k) =~= blocks);
    } else {
        assert(blocks.take(k + 1).drop_last() =~= blocks.take(k));
        lemma_rw_blocks_err(plan, next, blocks, k + 1);
    }
}

/// Rewrite every block (see [`rw_blocks`]), drawing fresh ids from `ids`.
pub fn rewrite_bodies(plan: &Vec<VarSplit>, blocks: &Vec<Vec<SpirvInst>>, ids: &mut IdAllocator) -> (r: Result<Vec<Vec<BlockItem>>, RewriteFault>)
    requires
        blocks_results_present(blocks_view(blocks@)),
    ensures
        match rw_blocks(plan@, old(ids).next_id, blocks_view(blocks@)) {
            Ok((n, items)) => r is Ok && r->Ok_0@.map_values(|b: Vec<BlockItem>| items_view(b@)) == items
                && final(ids).next_id == n,
            Err(e) => r == Err::<Vec<Vec<BlockItem>>, RewriteFault>(e),
        },
{
    let ghost bv = blocks_view(blocks@);
    let ghost next0 = ids.next_id;
    let mut out: Vec<Vec<BlockItem>> = Vec::new();
    let mut b: usize = 0;
    assert(bv.take(0) =~= Seq::<Seq<InstView>>::empty());
    assert(out@.map_values(|x: Vec<BlockItem>| items_view(x@)) =~= Seq::<Seq<ItemView>>::empty());
    while b < blocks.len()
        invariant
            b <= blocks@.len(),
            bv == blocks_view(blocks@),
            next0 == old(ids).next_id,
            blocks_results_present(bv),
            rw_blocks(plan@, next0, bv.take(b as int)) == Ok::<(u32, Seq<Seq<ItemView>>), RewriteFault>(
                (ids.next_id, out@.map_values(|x: Vec<BlockItem>| items_view(x@)))),
        decreases blocks@.len() - b,
    {
        assert(bv.take(b + 1).drop_last() =~= bv.take(b as int));
        assert(bv.take(b + 1).last() == bv[b as int]);
        assert(bv[b as int] == insts_view(blocks@[b as int]@));
        assert(results_present(bv[b as int]));
        let ghost before = out@.map_values(|x: Vec<BlockItem>| items_view(x@));
        match rewrite_block(plan, &blocks[b], ids) {
            Ok(items) => {
                out.push(items);
                assert(out@.map_values(|x: Vec<BlockItem>| items_view(x@)) =~= before.push(items_view(out@.last()@)));
            },
            Err(e) => {
                proof { lemma_rw_blocks_err(plan@, next0, bv, (b + 1) as int); }
                return Err(e);
            },
        }
        b = b + 1;
    }
    assert(bv.take(blocks@.len() as int) =~= bv);
    Ok(out)
}

/// The first operand from position `i` on of `inst` that references one of
/// the combined variables `vars`, other than the pointer operand of an
/// `OpLoad`: the variable and the operand's position.
pub open spec fn var_use_at(vars: Seq<u32>, inst: InstView, i: nat) -> Option<(u32, nat)>
    decreases inst.3.len() - i,
{
    if i >= inst.3.len() {
        None
    } else {
        match id_at(inst.3, i as int) {
            Some(id) => if vars.contains(id) && !(inst.0 == OP_LOAD && i == 0) {
                Some((id, i))
            } else {
                var_use_at(vars, inst, i + 1)
            },
            None => var_use_at(vars, inst, i + 1),
        }
    }
}

/// The first use of a combined variable other than an inline load, over
/// instructions `insts` in order: the variable, the opcode and the operand's
/// position.
pub open spec fn var_use_in(vars: Seq<u32>, insts: Seq<InstView>) -> Option<(u32, u32, nat)>
    decreases insts.len(),
{
    if insts.len() == 0 {
        None
    } else {
        match var_use_at(vars, insts[0], 0) {
            Some((id, i)) => Some((id, insts[0].0, i)),
            None => var_use_in(vars, insts.drop_first()),
        }
    }
}

/// The first such use over every block in order.
pub open spec fn var_use(vars: Seq<u32>, blocks: Seq<Seq<InstView>>) -> Option<(u32, u32, nat)>
    decreases blocks.len(),
{
    if blocks.len() == 0 {
        None
    } else {
        match var_use_in(vars, blocks[0]) {
            Some(u) => Some(u),
            None => var_use(vars, blocks.drop_first()),
        }
    }
}

/// The name rspirv's `Op` shows for opcode `op` in debug output (such as
/// `Load`), or `None` when `op` names no opcode.
pub uninterp spec fn spirv_op_name(op: u32) -> Option<Seq<char>>;

/// The debug name of opcode `op`, from `rspirv::spirv::Op::from_u32` and the
/// `Debug` of `Op`; `None` when `from_u32` knows no such opcode. The contract
/// says only that the result is that name.
#[verifier::external_body]
fn op_name(op: u32) -> (r: Option<String>)
    ensures
        match r {
            Some(n) => spirv_op_name(op) == Some(n@),
            None => spirv_op_name(op) is None,
        },
{
    Op::from_u32(op).map(|o| format!("{o:?}"))
}

/// How an opcode is named in messages: rspirv's name for it, or its number.
pub open spec fn op_label(op: u32) -> Seq<char> {
    match spirv_op_name(op) {
        Some(n) => n,
        None => decimal_chars(op as nat),
    }
}

/// Append [`op_label`] of `op` to `m`.
fn push_op_label(m: &mut Vec<char>, op: u32)
    ensures
        final(m)@ == old(m)@ + op_label(op),
{
    match op_name(op) {
        Some(name) => {
            let nc = crate::text::chars_of_string(&name);
            crate::text::append_range(m, &nc, 0, nc.len());
            assert(nc@.subrange(0, nc@.len() as int) =~= nc@);
        },
        None => {
            push_decimal(m, op as u64);
        },
    }
}

/// The message for a combined variable used other than by an inline load.
pub open spec fn var_use_message(id: u32, op: u32, i: nat) -> Seq<char> {
    "combined image-sampler variable %"@ + decimal_chars(id as nat) + " is used by "@ + op_label(op)
        + " (operand "@ + decimal_chars(i) + "); only an inline `OpLoad` of a scalar `sampler2D` global is supported \u{2014} it was likely passed to a function or aliased through a pointer"@
}

/// The message for a combined value flowing into a later operand.
pub open spec fn value_use_message(op: u32, i: nat) -> Seq<char> {
    "a combined image-sampler value flows into operand "@ + decimal_chars(i) + " of "@ + op_label(op)
        + ", which the transform does not handle (e.g. stored, copied, or passed to a function)"@
}

fn var_use_at_exec(vars: &Vec<u32>, inst: &SpirvInst) -> (r: Option<(u32, usize)>)
    ensures
        match r {
            Some((id, i)) => var_use_at(vars@, inst@, 0) == Some((id, i as nat)),
            None => var_use_at(vars@, inst@, 0) is None,
        },
{
    let mut i: usize = 0;
    while i < inst.operands.len()
        invariant
            var_use_at(vars@, inst@, 0) == var_use_at(vars@, inst@, i as nat),
        decreases inst.operands@.len() - i,
    {
        match id_at_exec(&inst.operands, i) {
            Some(id) => {
                let mut found = false;
                let mut j: usize = 0;
                while j < vars.len()
                    invariant
                        j <= vars@.len(),
                        found <==> vars@.take(j as int).contains(id),
                    decreases vars@.len() - j,
                {
                    assert(vars@.take(j + 1) =~= vars@.take(j as int).push(vars@[j as int]));
                    proof {
                        if vars@.take(j + 1).contains(id) {
                            let w = choose|w: int| 0 <= w < vars@.take(j + 1).len() && #[trigger] vars@.take(j + 1)[w] == id;
                            if w < j {
                                assert(vars@.take(j as int)[w] == id);
                            }
                        }
                        if vars@.take(j as int).contains(id) {
                            let w = choose|w: int| 0 <= w < vars@.take(j as int).len() && #[trigger] vars@.take(j as int)[w] == id;
                            assert(vars@.take(j + 1)[w] == id);
                        }
                        if vars@[j as int] == id {
                            assert(vars@.take(j + 1)[j as int] == id);
                        }
                    }
                    if vars[j] == id {
                        found = true;
                    }
                    j = j + 1;
                }
                assert(vars@.take(vars@.len() as int) =~= vars@);
                if found && !(inst.opcode == OP_LOAD && i == 0) {
                    return Some((id, i));
                }
            },
            None => {},
        }
        i = i + 1;
    }
    None
}

/// Check that every reference to a combined variable `vars` in the blocks is
/// the pointer operand of an `OpLoad`; the first other use is an
/// [`SplitError::UnsupportedDeclaration`].
pub fn validate_var_uses(vars: &Vec<u32>, blocks: &Vec<Vec<SpirvInst>>) -> (r: Result<(), SplitError>)
    ensures
        match var_use(vars@, blocks_view(blocks@)) {
            None => r is Ok,
            Some((id, op, i)) => r matches Err(SplitError::UnsupportedDeclaration(m)) && m@ == var_use_message(id, op, i),
        },
{
    let ghost bv = blocks_view(blocks@);
    let mut b: usize = 0;
    assert(bv.skip(0) =~= bv);
    while b < blocks.len()
        invariant
            b <= blocks@.len(),
            bv == blocks_view(blocks@),
            var_use(vars@, bv) == var_use(vars@, bv.skip(b as int)),
        decreases blocks@.len() - b,
    {
        let block = &blocks[b];
        let ghost iv = insts_view(block@);
        assert(bv.skip(b as int)[0] == iv);
        assert(bv.skip(b as int).drop_first() =~= bv.skip(b + 1));
        let mut k: usize = 0;
        assert(iv.skip(0) =~= iv);
        while k < block.len()
            invariant
                k <= block@.len(),
                b < blocks@.len(),
                block == blocks@[b as int],
                iv == insts_view(block@),
                bv == blocks_view(blocks@),
                var_use(vars@, bv) == var_use(vars@, bv.skip(b as int)),
                bv.skip(b as int)[0] == iv,
                var_use_in(vars@, iv) == var_use_in(vars@, iv.skip(k as int)),
            decreases block@.len() - k,
        {
            assert(iv.skip(k as int)[0] == block@[k as int]@);
            assert(iv.skip(k as int).drop_first() =~= iv.skip(k + 1));
            match var_use_at_exec(vars, &block[k]) {
                Some((id, i)) => {
                    let op = block[k].opcode;
                    let mut m: Vec<char> = Vec::new();
                    push_lit(&mut m, "combined image-sampler variable %");
                    push_decimal(&mut m, id as u64);
                    push_lit(&mut m, " is used by ");
                    push_op_label(&mut m, op);
                    push_lit(&mut m, " (operand ");
                    push_decimal(&mut m, i as u64);
                    push_lit(&mut m, "); only an inline `OpLoad` of a scalar `sampler2D` global is supported \u{2014} it was likely passed to a function or aliased through a pointer");
                    proof {
                        assert(var_use_in(vars@, iv.skip(k as int)) == Some((id, op, i as nat)));
                        assert(var_use(vars@, bv.skip(b as int)) == Some((id, op, i as nat)));
                        assert(m@ =~= var_use_message(id, op, i as nat));
                    }
                    return Err(SplitError::UnsupportedDeclaration(string_from_chars(m.as_slice())));
                },
                None => {},
            }
            k = k + 1;
        }
        assert(iv.skip(block@.len() as int) =~= Seq::<InstView>::empty());
        b = b + 1;
    }
    assert(bv.skip(blocks@.len() as int) =~= Seq::<Seq<InstView>>::empty());
    Ok(())
}

/// The [`SplitError`] a rewrite fault is reported as.
pub fn fault_error(f: RewriteFault) -> (r: Option<SplitError>)
    ensures
        match f {
            RewriteFault::IdsExhausted => r is None,
            RewriteFault::UnsupportedConsumer(op) => r matches Some(SplitError::UnsupportedConsumer { opcode }) && opcode == op,
            RewriteFault::UnsupportedUse { opcode, operand } => r matches Some(SplitError::UnsupportedDeclaration(m))
                && m@ == value_use_message(opcode, operand as nat),
        },
{
    match f {
        RewriteFault::IdsExhausted => None,
        RewriteFault::UnsupportedConsumer(op) => Some(SplitError::UnsupportedConsumer { opcode: op }),
        RewriteFault::UnsupportedUse { opcode, operand } => {
            let mut m: Vec<char> = Vec::new();
            push_lit(&mut m, "a combined image-sampler value flows into operand ");
            push_decimal(&mut m, operand as u64);
            push_lit(&mut m, " of ");
            push_op_label(&mut m, opcode);
            push_lit(&mut m, ", which the transform does not handle (e.g. stored, copied, or passed to a function)");
            Some(SplitError::UnsupportedDeclaration(string_from_chars(m.as_slice())))
        },
    }
}

} // verus!
