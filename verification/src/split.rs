//! The analysis half of splitting combined image-samplers: which types are
//! sampled images (or wrap one), which global variables are combined samplers
//! to split, how a combined value's consumer is re-wired, and where each new
//! sampler variable binds. The edits themselves are decided in
//! [`crate::split_module`].

use vstd::prelude::*;
use std::collections::HashSet;
use crate::spirv_model::{OperandVal, SpirvInst, SpirvModel, InstView, insts_view, spirv_load, load_spirv,
    OP_TYPE_POINTER, OP_VARIABLE, DECORATION_BINDING, DECORATION_DESCRIPTOR_SET};
use crate::push_to_ubo::{decorate_entry, last_deco, entry_of, last_deco_exec};
use crate::text::{push_lit, push_decimal, decimal_chars, string_from_chars};

verus! {

broadcast use vstd::std_specs::hash::group_hash_axioms;

/// SPIR-V opcode `OpTypeSampler`.
pub const OP_TYPE_SAMPLER: u32 = 26;
/// SPIR-V opcode `OpTypeSampledImage`.
pub const OP_TYPE_SAMPLED_IMAGE: u32 = 27;
/// SPIR-V opcode `OpTypeArray`.
pub const OP_TYPE_ARRAY: u32 = 28;
/// SPIR-V opcode `OpTypeRuntimeArray`.
pub const OP_TYPE_RUNTIME_ARRAY: u32 = 29;
/// SPIR-V opcode `OpTypeStruct`.
pub const OP_TYPE_STRUCT: u32 = 30;

/// Everything that can go wrong splitting combined samplers.
#[derive(Debug)]
pub enum SplitError {
    /// The input words were not parseable SPIR-V (the loader's message).
    Parse(String),
    /// A combined-sampler value flowed into an opcode the transform does not
    /// know how to re-wire.
    UnsupportedConsumer { opcode: u32 },
    /// A combined sampler is declared or used beyond a module-scope scalar
    /// `sampler2D` global (a short reason).
    UnsupportedDeclaration(String),
    /// An id or a binding would pass the largest 32-bit value.
    Exhausted,
}

/// The type section, indexed: sampled-image types (and the image each wraps),
/// sampler types, and the component types of arrays and structs.
pub struct TypeIndex {
    /// `(sampled-image type, image type)`, in declaration order.
    pub sampled_image_to_image: Vec<(u32, u32)>,
    /// Sampler type ids, in declaration order.
    pub sampler_type_ids: Vec<u32>,
    /// `(aggregate type, component types)`, in declaration order.
    pub component_types: Vec<(u32, Vec<u32>)>,
}

/// The `IdRef` operands of `ops`, in order.
pub open spec fn id_refs(ops: Seq<OperandVal>) -> Seq<u32>
    decreases ops.len(),
{
    if ops.len() == 0 {
        Seq::empty()
    } else {
        let prev = id_refs(ops.drop_last());
        match ops.last() {
            OperandVal::IdRef(r) => prev.push(r),
            _ => prev,
        }
    }
}

/// The image a sampled-image type `id` wraps (the last declaration of `id`).
pub open spec fn image_of(s: Seq<(u32, u32)>, id: u32) -> Option<u32>
    decreases s.len(),
{
    if s.len() == 0 {
        None
    } else if s.last().0 == id {
        Some(s.last().1)
    } else {
        image_of(s.drop_last(), id)
    }
}

/// The components of aggregate type `id` (its last declaration).
pub open spec fn components_of(c: Seq<(u32, Seq<u32>)>, id: u32) -> Option<Seq<u32>>
    decreases c.len(),
{
    if c.len() == 0 {
        None
    } else if c.last().0 == id {
        Some(c.last().1)
    } else {
        components_of(c.drop_last(), id)
    }
}

impl TypeIndex {
    /// The aggregate table, by content.
    pub open spec fn comps(&self) -> Seq<(u32, Seq<u32>)> {
        self.component_types@.map_values(|e: (u32, Vec<u32>)| (e.0, e.1@))
    }

    /// Whether `id` is a sampled-image type.
    pub open spec fn is_sampled(&self, id: u32) -> bool {
        image_of(self.sampled_image_to_image@, id) is Some
    }

    /// `b` is reachable from `a` in at most `n` steps through components.
    pub open spec fn reach(&self, a: u32, b: u32, n: nat) -> bool {
        reach_in(self.comps(), a, b, n)
    }

    /// `b` is reachable from `a` through components.
    pub open spec fn reachable(&self, a: u32, b: u32) -> bool {
        exists|n: nat| self.reach(a, b, n)
    }

    /// Whether type `id` is, or (through arrays and structs) contains, a
    /// sampled-image type.
    pub open spec fn contains_spec(&self, id: u32) -> bool {
        contains_in(self.sampled_image_to_image@, self.comps(), id)
    }
}

/// `b` is reachable from `a` in at most `n` steps through the components `c`.
pub open spec fn reach_in(c: Seq<(u32, Seq<u32>)>, a: u32, b: u32, n: nat) -> bool
    decreases n,
{
    a == b || (n > 0 && match components_of(c, a) {
        Some(cs) => exists|k: int| 0 <= k < cs.len() && reach_in(c, #[trigger] cs[k], b, (n - 1) as nat),
        None => false,
    })
}

/// Whether type `id` is, or (through the components `c`) contains, one of the
/// sampled-image types of `s`.
pub open spec fn contains_in(s: Seq<(u32, u32)>, c: Seq<(u32, Seq<u32>)>, id: u32) -> bool {
    exists|b: u32, n: nat| #[trigger] reach_in(c, id, b, n) && image_of(s, b) is Some
}

/// The table entry a global declares, if it is one of the indexed types.
pub open spec fn sampled_entry(i: InstView) -> Option<(u32, u32)> {
    if i.0 == OP_TYPE_SAMPLED_IMAGE && i.2 is Some && i.3.len() > 0 {
        match i.3[0] {
            OperandVal::IdRef(img) => Some((i.2->0, img)),
            _ => None,
        }
    } else {
        None
    }
}

/// The sampled-image table of the globals `g`.
pub open spec fn sampled_table(g: Seq<InstView>) -> Seq<(u32, u32)>
    decreases g.len(),
{
    if g.len() == 0 {
        Seq::empty()
    } else {
        let prev = sampled_table(g.drop_last());
        match sampled_entry(g.last()) {
            Some(e) => prev.push(e),
            None => prev,
        }
    }
}

/// The sampler types among the globals `g`.
pub open spec fn sampler_table(g: Seq<InstView>) -> Seq<u32>
    decreases g.len(),
{
    if g.len() == 0 {
        Seq::empty()
    } else {
        let prev = sampler_table(g.drop_last());
        if g.last().0 == OP_TYPE_SAMPLER && g.last().2 is Some { prev.push(g.last().2->0) } else { prev }
    }
}

/// Whether `op` declares an aggregate that can wrap a sampled image.
pub open spec fn is_aggregate(op: u32) -> bool {
    op == OP_TYPE_ARRAY || op == OP_TYPE_RUNTIME_ARRAY || op == OP_TYPE_STRUCT
}

/// The aggregate table of the globals `g`.
pub open spec fn component_table(g: Seq<InstView>) -> Seq<(u32, Seq<u32>)>
    decreases g.len(),
{
    if g.len() == 0 {
        Seq::empty()
    } else {
        let prev = component_table(g.drop_last());
        let i = g.last();
        if is_aggregate(i.0) && i.2 is Some { prev.push((i.2->0, id_refs(i.3))) } else { prev }
    }
}

/// The `IdRef` operands of `ops`.
pub(crate) fn id_refs_exec(ops: &Vec<OperandVal>) -> (r: Vec<u32>)
    ensures
        r@ == id_refs(ops@),
{
    let mut r: Vec<u32> = Vec::new();
    let mut i: usize = 0;
    assert(ops@.take(0) =~= Seq::<OperandVal>::empty());
    while i < ops.len()
        invariant
            i <= ops@.len(),
            r@ == id_refs(ops@.take(i as int)),
        decreases ops@.len() - i,
    {
        assert(ops@.take(i + 1).drop_last() =~= ops@.take(i as int));
        match &ops[i] {
            OperandVal::IdRef(x) => { r.push(*x); },
            _ => {},
        }
        i = i + 1;
    }
    assert(ops@.take(ops@.len() as int) =~= ops@);
    r
}

impl TypeIndex {
    /// Index the type section `globals`.
    pub fn build(globals: &Vec<SpirvInst>) -> (t: TypeIndex)
        ensures
            t.sampled_image_to_image@ == sampled_table(insts_view(globals@)),
            t.sampler_type_ids@ == sampler_table(insts_view(globals@)),
            t.comps() == component_table(insts_view(globals@)),
    {
        let ghost g = insts_view(globals@);
        let mut sampled: Vec<(u32, u32)> = Vec::new();
        let mut samplers: Vec<u32> = Vec::new();
        let mut comps: Vec<(u32, Vec<u32>)> = Vec::new();
        let mut i: usize = 0;
        assert(g.take(0) =~= Seq::<InstView>::empty());
        assert(comps@.map_values(|e: (u32, Vec<u32>)| (e.0, e.1@)) =~= Seq::<(u32, Seq<u32>)>::empty());
        while i < globals.len()
            invariant
                i <= globals@.len(),
                g == insts_view(globals@),
                sampled@ == sampled_table(g.take(i as int)),
                samplers@ == sampler_table(g.take(i as int)),
                comps@.map_values(|e: (u32, Vec<u32>)| (e.0, e.1@)) == component_table(g.take(i as int)),
            decreases globals@.len() - i,
        {
            assert(g.take(i + 1).drop_last() =~= g.take(i as int));
            assert(g.take(i + 1).last() == globals@[i as int]@);
            let inst = &globals[i];
            if inst.opcode == OP_TYPE_SAMPLED_IMAGE {
                match inst.result_id {
                    Some(id) => {
                        if inst.operands.len() > 0 {
                            match &inst.operands[0] {
                                OperandVal::IdRef(img) => { sampled.push((id, *img)); },
                                _ => {},
                            }
                        }
                    },
                    None => {},
                }
            } else if inst.opcode == OP_TYPE_SAMPLER {
                match inst.result_id {
                    Some(id) => { samplers.push(id); },
                    None => {},
                }
            } else if inst.opcode == OP_TYPE_ARRAY || inst.opcode == OP_TYPE_RUNTIME_ARRAY
                || inst.opcode == OP_TYPE_STRUCT {
                match inst.result_id {
                    Some(id) => {
                        let members = id_refs_exec(&inst.operands);
                        let ghost before = comps@.map_values(|e: (u32, Vec<u32>)| (e.0, e.1@));
                        comps.push((id, members));
                        assert(comps@.map_values(|e: (u32, Vec<u32>)| (e.0, e.1@)) =~= before.push((id, members@)));
                    },
                    None => {},
                }
            }
            i = i + 1;
        }
        assert(g.take(globals@.len() as int) =~= g);
        TypeIndex { sampled_image_to_image: sampled, sampler_type_ids: samplers, component_types: comps }
    }

    /// The image type that sampled-image type `id` wraps, if it is one.
    pub fn image_type_of(&self, id: u32) -> (r: Option<u32>)
        ensures
            r == image_of(self.sampled_image_to_image@, id),
    {
        let s = &self.sampled_image_to_image;
        let mut j = s.len();
        assert(s@.take(j as int) =~= s@);
        while j > 0
            invariant
                j <= s@.len(),
                s@ == self.sampled_image_to_image@,
                image_of(s@, id) == image_of(s@.take(j as int), id),
            decreases j,
        {
            assert(s@.take(j as int).drop_last() =~= s@.take(j - 1));
            assert(s@.take(j as int).last() == s@[j - 1]);
            if s[j - 1].0 == id {
                return Some(s[j - 1].1);
            }
            j = j - 1;
        }
        None
    }

    /// The component types of aggregate type `id`, if it is one.
    fn components(&self, id: u32) -> (r: Option<&Vec<u32>>)
        ensures
            match r {
                Some(v) => components_of(self.comps(), id) == Some(v@),
                None => components_of(self.comps(), id) is None,
            },
    {
        let c = &self.component_types;
        let ghost cv = self.comps();
        let mut j = c.len();
        assert(cv.take(j as int) =~= cv);
        while j > 0
            invariant
                j <= c@.len(),
                cv == self.comps(),
                c == &self.component_types,
                components_of(cv, id) == components_of(cv.take(j as int), id),
            decreases j,
        {
            assert(cv.take(j as int).drop_last() =~= cv.take(j - 1));
            assert(cv[j - 1] == (c@[j - 1].0, c@[j - 1].1@));
            if c[j - 1].0 == id {
                return Some(&c[j - 1].1);
            }
            j = j - 1;
        }
        None
    }
}

/// Every component id the aggregate table mentions, in order.
pub open spec fn all_component_ids(c: Seq<(u32, Seq<u32>)>) -> Seq<u32>
    decreases c.len(),
{
    if c.len() == 0 { Seq::empty() } else { all_component_ids(c.drop_last()) + c.last().1 }
}

proof fn lemma_components_in_all(c: Seq<(u32, Seq<u32>)>, x: u32)
    ensures
        components_of(c, x) matches Some(cs) ==> forall|k: int| 0 <= k < cs.len()
            ==> all_component_ids(c).contains(#[trigger] cs[k]),
    decreases c.len(),
{
    if c.len() > 0 {
        lemma_components_in_all(c.drop_last(), x);
        if c.last().0 == x {
            let cs = c.last().1;
            assert forall|k: int| 0 <= k < cs.len() implies all_component_ids(c).contains(#[trigger] cs[k]) by {
                let a = all_component_ids(c.drop_last());
                assert((a + cs)[a.len() + k] == cs[k]);
            }
        } else {
            match components_of(c, x) {
                Some(cs) => {
                    assert forall|k: int| 0 <= k < cs.len() implies all_component_ids(c).contains(#[trigger] cs[k]) by {
                        let a = all_component_ids(c.drop_last());
                        let j = choose|j: int| 0 <= j < a.len() && a[j] == cs[k];
                        assert((a + c.last().1)[j] == cs[k]);
                    }
                },
                None => {},
            }
        }
    }
}

impl TypeIndex {
    /// The ids a search from `t` can meet.
    pub open spec fn universe(&self, t: u32) -> Set<u32> {
        all_component_ids(self.comps()).to_set().insert(t)
    }

    proof fn lemma_closed_seen_covers_reach(&self, seen: Set<u32>, a: u32, b: u32, n: nat)
        requires
            seen.contains(a),
            forall|x: u32| #[trigger] seen.contains(x) ==> match components_of(self.comps(), x) {
                Some(cs) => forall|k: int| 0 <= k < cs.len() ==> seen.contains(#[trigger] cs[k]),
                None => true,
            },
            self.reach(a, b, n),
        ensures
            seen.contains(b),
        decreases n,
    {
        if a != b {
            match components_of(self.comps(), a) {
                Some(cs) => {
                    let k = choose|k: int| 0 <= k < cs.len() && self.reach(#[trigger] cs[k], b, (n - 1) as nat);
                    self.lemma_closed_seen_covers_reach(seen, cs[k], b, (n - 1) as nat);
                },
                None => {},
            }
        }
    }

    proof fn lemma_reach_step(&self, t: u32, a: u32, n: nat, c: u32)
        requires
            self.reach(t, a, n),
            components_of(self.comps(), a) matches Some(cs) && cs.contains(c),
        ensures
            self.reach(t, c, n + 1),
        decreases n,
    {
        if t == a {
            let cs = components_of(self.comps(), a)->0;
            let k = choose|k: int| 0 <= k < cs.len() && cs[k] == c;
            assert(self.reach(cs[k], c, n));
        } else {
            let cs = components_of(self.comps(), t)->0;
            let k = choose|k: int| 0 <= k < cs.len() && self.reach(#[trigger] cs[k], a, (n - 1) as nat);
            self.lemma_reach_step(cs[k], a, (n - 1) as nat, c);
            assert(self.reach(cs[k], c, n));
        }
    }

    /// Whether type `type_id` is, or (through arrays and structs) contains, a
    /// sampled-image type. Each type is visited once, so a cyclic table
    /// terminates.
    pub fn contains_sampled_image(&self, type_id: u32) -> (r: bool)
        ensures
            r == self.contains_spec(type_id),
    {
        let ghost u = self.universe(type_id);
        proof {
            vstd::seq_lib::seq_to_set_is_finite(all_component_ids(self.comps()));
            assert(self.reach(type_id, type_id, 0));
        }
        let mut stack: Vec<u32> = Vec::new();
        stack.push(type_id);
        let mut seen: HashSet<u32> = HashSet::new();
        assert(stack@[0] == type_id);
        assert(self.reach(type_id, stack@[0], 0));
        loop
            invariant
                u == self.universe(type_id),
                u.finite(),
                seen@.subset_of(u),
                forall|k: int| 0 <= k < stack@.len() ==> u.contains(#[trigger] stack@[k]),
                forall|k: int| 0 <= k < stack@.len() ==> self.reachable(type_id, #[trigger] stack@[k]),
                forall|x: u32| #[trigger] seen@.contains(x) ==> self.reachable(type_id, x),
                forall|x: u32| #[trigger] seen@.contains(x) ==> !self.is_sampled(x),
                forall|x: u32| #[trigger] seen@.contains(x) ==> match components_of(self.comps(), x) {
                    Some(cs) => forall|k: int| 0 <= k < cs.len() ==> seen@.contains(#[trigger] cs[k]) || stack@.contains(cs[k]),
                    None => true,
                },
                seen@.contains(type_id) || stack@.contains(type_id),
            decreases u.difference(seen@).len(), stack@.len(),
        {
            let ghost stack_before = stack@;
            let top = stack.pop();
            proof {
                if stack_before.len() > 0 {
                    assert(stack_before =~= stack@.push(stack_before.last()));
                    assert forall|k: int| 0 <= k < stack@.len() implies stack@[k] == stack_before[k] by {}
                }
            }
            let id = match top {
                Some(id) => id,
                None => {
                    proof {
                        assert forall|b: u32, n: nat| #[trigger] reach_in(self.comps(), type_id, b, n)
                            implies image_of(self.sampled_image_to_image@, b) is None by {
                            self.lemma_closed_seen_covers_reach(seen@, type_id, b, n);
                        }
                    }
                    return false;
                },
            };
            let ghost popped = id;
            assert(stack_before == stack@.push(popped));
            proof {
                assert forall|k: int| 0 <= k < stack@.len() implies self.reachable(type_id, #[trigger] stack@[k]) by {
                    assert(stack@[k] == stack_before[k]);
                    assert(0 <= k < stack_before.len());
                    assert(self.reachable(type_id, stack_before[k]));
                }
                assert forall|k: int| 0 <= k < stack@.len() implies u.contains(#[trigger] stack@[k]) by {
                    assert(stack@[k] == stack_before[k]);
                }
            }
            if seen.contains(&id) {
                proof {
                    if !seen@.contains(type_id) {
                        assert(stack_before.contains(type_id));
                        let j = choose|j: int| 0 <= j < stack_before.len() && stack_before[j] == type_id;
                        if j < stack@.len() {
                            assert(stack@[j] == type_id);
                        }
                    }
                    assert forall|x: u32| #[trigger] seen@.contains(x) implies match components_of(self.comps(), x) {
                        Some(cs) => forall|k: int| 0 <= k < cs.len() ==> seen@.contains(#[trigger] cs[k]) || stack@.contains(cs[k]),
                        None => true,
                    } by {
                        match components_of(self.comps(), x) {
                            Some(cs) => {
                                assert forall|k: int| 0 <= k < cs.len() implies seen@.contains(#[trigger] cs[k]) || stack@.contains(cs[k]) by {
                                    if !seen@.contains(cs[k]) {
                                        let old_stack = stack@.push(popped);
                                        assert(old_stack == stack_before);
                                        assert(old_stack.contains(cs[k]));
                                        let j = choose|j: int| 0 <= j < old_stack.len() && old_stack[j] == cs[k];
                                        if j < stack@.len() {
                                            assert(stack@[j] == cs[k]);
                                        }
                                    }
                                }
                            },
                            None => {},
                        }
                    }
                }
                continue;
            }
            let ghost seen_before = seen@;
            seen.insert(id);
            proof {
                if !seen@.contains(type_id) {
                    assert(stack_before.contains(type_id));
                    let j = choose|j: int| 0 <= j < stack_before.len() && stack_before[j] == type_id;
                    assert(j < stack@.len());
                    assert(stack@[j] == type_id);
                }
                assert(u.difference(seen@) =~= u.difference(seen_before).remove(id));
                vstd::set_lib::lemma_len_subset(u.difference(seen_before), u);
            }
            if self.image_type_of(id).is_some() {
                proof {
                    let n = choose|n: nat| self.reach(type_id, id, n);
                    assert(self.reach(type_id, id, n) && self.is_sampled(id));
                }
                return true;
            }
            match self.components(id) {
                Some(cs) => {
                    let ghost n0 = choose|n: nat| self.reach(type_id, id, n);
                    let ghost base = stack@;
                    proof {
                        lemma_components_in_all(self.comps(), id);
                        assert forall|j: int| 0 <= j < cs@.len() implies all_component_ids(self.comps()).contains(#[trigger] cs@[j]) by {
                            let cs0 = components_of(self.comps(), id)->0;
                            assert(cs0 == cs@);
                            assert(all_component_ids(self.comps()).contains(cs0[j]));
                        }
                    }
                    let mut k: usize = 0;
                    while k < cs.len()
                        invariant
                            k <= cs@.len(),
                            components_of(self.comps(), id) == Some(cs@),
                            stack@ == base + cs@.take(k as int),
                            u == self.universe(type_id),
                            self.reach(type_id, id, n0),
                            forall|j: int| 0 <= j < cs@.len() ==> all_component_ids(self.comps()).contains(#[trigger] cs@[j]),
                            forall|j: int| 0 <= j < base.len() ==> u.contains(#[trigger] base[j]),
                            forall|j: int| 0 <= j < base.len() ==> self.reachable(type_id, #[trigger] base[j]),
                        decreases cs@.len() - k,
                    {
                        stack.push(cs[k]);
                        proof {
                            assert(stack@ =~= base + cs@.take(k + 1));
                        }
                        k = k + 1;
                    }
                    proof {
                        assert(cs@.take(cs@.len() as int) =~= cs@);
                        if base.contains(type_id) {
                            let j = choose|j: int| 0 <= j < base.len() && base[j] == type_id;
                            assert(stack@[j] == type_id);
                        }
                        assert forall|j: int| 0 <= j < stack@.len() implies u.contains(#[trigger] stack@[j]) by {
                            if j >= base.len() {
                                assert(stack@[j] == cs@[j - base.len()]);
                                assert(all_component_ids(self.comps()).to_set().contains(cs@[j - base.len()]));
                            }
                        }
                        assert forall|j: int| 0 <= j < stack@.len() implies self.reachable(type_id, #[trigger] stack@[j]) by {
                            if j >= base.len() {
                                let c = cs@[j - base.len()];
                                assert(stack@[j] == c);
                                assert(cs@.contains(c));
                                self.lemma_reach_step(type_id, id, n0, c);
                            }
                        }
                        assert forall|x: u32| #[trigger] seen@.contains(x) implies match components_of(self.comps(), x) {
                            Some(cs2) => forall|i: int| 0 <= i < cs2.len() ==> seen@.contains(#[trigger] cs2[i]) || stack@.contains(cs2[i]),
                            None => true,
                        } by {
                            match components_of(self.comps(), x) {
                                Some(cs2) => {
                                    assert forall|i: int| 0 <= i < cs2.len() implies seen@.contains(#[trigger] cs2[i]) || stack@.contains(cs2[i]) by {
                                        if x == id {
                                            assert(stack@[base.len() + i] == cs2[i]);
                                        } else if !seen@.contains(cs2[i]) {
                                            let old_stack = base.push(popped);
                                            assert(seen_before.contains(x));
                                            assert(old_stack.contains(cs2[i]));
                                            let j = choose|j: int| 0 <= j < old_stack.len() && old_stack[j] == cs2[i];
                                            assert(j < base.len());
                                            assert(stack@[j] == cs2[i]);
                                        }
                                    }
                                },
                                None => {},
                            }
                        }
                    }
                },
                None => {
                    proof {
                        assert forall|x: u32| #[trigger] seen@.contains(x) implies match components_of(self.comps(), x) {
                            Some(cs2) => forall|i: int| 0 <= i < cs2.len() ==> seen@.contains(#[trigger] cs2[i]) || stack@.contains(cs2[i]),
                            None => true,
                        } by {
                            match components_of(self.comps(), x) {
                                Some(cs2) => {
                                    assert forall|i: int| 0 <= i < cs2.len() implies seen@.contains(#[trigger] cs2[i]) || stack@.contains(cs2[i]) by {
                                        if !seen@.contains(cs2[i]) {
                                            let old_stack = stack@.push(popped);
                                            assert(seen_before.contains(x));
                                            assert(old_stack.contains(cs2[i]));
                                            let j = choose|j: int| 0 <= j < old_stack.len() && old_stack[j] == cs2[i];
                                            assert(j < stack@.len());
                                            assert(stack@[j] == cs2[i]);
                                        }
                                    }
                                },
                                None => {},
                            }
                        }
                    }
                },
            }
        }
    }
}

/// SPIR-V storage class `UniformConstant`.
pub const STORAGE_UNIFORM_CONSTANT: u32 = 0;

/// A combined-sampler global to split: the variable, its sampled-image type
/// and the image type that wraps.
#[derive(Debug, Clone, Copy, PartialEq, Eq, Structural)]
pub struct CombinedVar {
    pub var_id: u32,
    pub sampled_image_type_id: u32,
    pub image_type_id: u32,
}

/// `(pointer type, storage class, pointee)` of an `OpTypePointer`.
pub open spec fn pointer_entry(i: InstView) -> Option<(u32, u32, u32)> {
    if i.0 == OP_TYPE_POINTER && i.2 is Some && i.3.len() >= 2 {
        match (i.3[0], i.3[1]) {
            (OperandVal::StorageClass(sc), OperandVal::IdRef(p)) => Some((i.2->0, sc, p)),
            _ => None,
        }
    } else {
        None
    }
}

/// The pointee of pointer type `id` (its last declaration in `g`).
pub open spec fn pointee_of(g: Seq<InstView>, id: u32) -> Option<u32>
    decreases g.len(),
{
    if g.len() == 0 {
        None
    } else {
        match pointer_entry(g.last()) {
            Some((pid, sc, p)) => if pid == id { Some(p) } else { pointee_of(g.drop_last(), id) },
            None => pointee_of(g.drop_last(), id),
        }
    }
}

/// What the scan makes of one global.
pub enum VarClass {
    /// Not a combined sampler.
    Skip,
    /// A combined sampler to split.
    Split(CombinedVar),
    /// A variable whose pointee wraps a sampled image inside an aggregate:
    /// `(variable, pointee)`.
    Reject(u32, u32),
}

/// How global `i` of the module with globals `g` and type index `t` is
/// classified: a `UniformConstant` variable whose pointee is a sampled image
/// is split; one whose pointee only contains one is rejected.
pub open spec fn var_class(g: Seq<InstView>, st: Seq<(u32, u32)>, ct: Seq<(u32, Seq<u32>)>, i: InstView) -> VarClass {
    if i.0 == OP_VARIABLE && i.1 is Some && i.2 is Some && i.3.len() > 0
        && i.3[0] == OperandVal::StorageClass(STORAGE_UNIFORM_CONSTANT) {
        match pointee_of(g, i.1->0) {
            None => VarClass::Skip,
            Some(p) => match image_of(st, p) {
                Some(img) => VarClass::Split(CombinedVar { var_id: i.2->0, sampled_image_type_id: p, image_type_id: img }),
                None => if contains_in(st, ct, p) { VarClass::Reject(i.2->0, p) } else { VarClass::Skip },
            },
        }
    } else {
        VarClass::Skip
    }
}

/// The combined samplers among the first globals `pre` (in order), or the
/// first rejected variable and its pointee.
pub open spec fn combined_scan(g: Seq<InstView>, st: Seq<(u32, u32)>, ct: Seq<(u32, Seq<u32>)>, pre: Seq<InstView>) -> Result<Seq<CombinedVar>, (u32, u32)>
    decreases pre.len(),
{
    if pre.len() == 0 {
        Ok(Seq::empty())
    } else {
        match combined_scan(g, st, ct, pre.drop_last()) {
            Err(e) => Err(e),
            Ok(vs) => match var_class(g, st, ct, pre.last()) {
                VarClass::Skip => Ok(vs),
                VarClass::Split(cv) => Ok(vs.push(cv)),
                VarClass::Reject(v, p) => Err((v, p)),
            },
        }
    }
}

/// The message for a variable that is an array or aggregate of combined
/// samplers.
pub open spec fn aggregate_message(var: u32, pointee: u32) -> Seq<char> {
    "global variable %"@ + decimal_chars(var as nat) + " is an array/aggregate of combined image-samplers (pointee type %"@
        + decimal_chars(pointee as nat) + "); the sampler-splitting transform only handles a scalar `sampler2D` global"@
}

/// The pointee of pointer type `id` among `globals`.
fn pointee_exec(globals: &Vec<SpirvInst>, id: u32) -> (r: Option<u32>)
    ensures
        r == pointee_of(insts_view(globals@), id),
{
    let ghost g = insts_view(globals@);
    let mut j = globals.len();
    assert(g.take(j as int) =~= g);
    while j > 0
        invariant
            j <= globals@.len(),
            g == insts_view(globals@),
            pointee_of(g, id) == pointee_of(g.take(j as int), id),
        decreases j,
    {
        assert(g.take(j as int).drop_last() =~= g.take(j - 1));
        assert(g.take(j as int).last() == globals@[j - 1]@);
        let inst = &globals[j - 1];
        if inst.opcode == OP_TYPE_POINTER && inst.operands.len() >= 2 {
            match (inst.result_id, &inst.operands[0], &inst.operands[1]) {
                (Some(pid), OperandVal::StorageClass(_), OperandVal::IdRef(p)) => {
                    if pid == id {
                        return Some(*p);
                    }
                },
                _ => {},
            }
        }
        j = j - 1;
    }
    None
}

/// Scan the globals for combined-sampler variables: `UniformConstant`
/// variables whose pointee is a sampled-image type, in declaration order. A
/// variable whose pointee is an array or aggregate wrapping a sampled image is
/// an [`SplitError::UnsupportedDeclaration`].
pub fn find_combined_variables(globals: &Vec<SpirvInst>, types: &TypeIndex) -> (r: Result<Vec<CombinedVar>, SplitError>)
    ensures
        match combined_scan(insts_view(globals@), types.sampled_image_to_image@, types.comps(), insts_view(globals@)) {
            Ok(vs) => r matches Ok(v) && v@ == vs,
            Err((var, p)) => r matches Err(SplitError::UnsupportedDeclaration(m)) && m@ == aggregate_message(var, p),
        },
{
    let ghost g = insts_view(globals@);
    let mut out: Vec<CombinedVar> = Vec::new();
    let mut i: usize = 0;
    assert(g.take(0) =~= Seq::<InstView>::empty());
    while i < globals.len()
        invariant
            i <= globals@.len(),
            g == insts_view(globals@),
            combined_scan(g, types.sampled_image_to_image@, types.comps(), g.take(i as int)) == Ok::<Seq<CombinedVar>, (u32, u32)>(out@),
        decreases globals@.len() - i,
    {
        assert(g.take(i + 1).drop_last() =~= g.take(i as int));
        assert(g.take(i + 1).last() == globals@[i as int]@);
        let inst = &globals[i];
        let uniform_constant = inst.operands.len() > 0 && match &inst.operands[0] {
            OperandVal::StorageClass(sc) => *sc == STORAGE_UNIFORM_CONSTANT,
            _ => false,
        };
        if inst.opcode == OP_VARIABLE && uniform_constant {
            match (inst.result_type, inst.result_id) {
                (Some(ptr), Some(var)) => {
                    match pointee_exec(globals, ptr) {
                        Some(p) => {
                            match types.image_type_of(p) {
                                Some(img) => {
                                    out.push(CombinedVar { var_id: var, sampled_image_type_id: p, image_type_id: img });
                                },
                                None => {
                                    if types.contains_sampled_image(p) {
                                        let mut m: Vec<char> = Vec::new();
                                        push_lit(&mut m, "global variable %");
                                        push_decimal(&mut m, var as u64);
                                        push_lit(&mut m, " is an array/aggregate of combined image-samplers (pointee type %");
                                        push_decimal(&mut m, p as u64);
                                        push_lit(&mut m, "); the sampler-splitting transform only handles a scalar `sampler2D` global");
                                        proof {
                                            assert(combined_scan(g, types.sampled_image_to_image@, types.comps(), g.take(i + 1)) == Err::<Seq<CombinedVar>, (u32, u32)>((var, p)));
                                            lemma_scan_err(g, types.sampled_image_to_image@, types.comps(), (i + 1) as int);
                                        }
                                        return Err(SplitError::UnsupportedDeclaration(string_from_chars(m.as_slice())));
                                    }
                                },
                            }
                        },
                        None => {},
                    }
                },
                _ => {},
            }
        }
        i = i + 1;
    }
    assert(g.take(globals@.len() as int) =~= g);
    Ok(out)
}

/// Once the scan fails on a prefix, it fails the same way on the whole.
proof fn lemma_scan_err(g: Seq<InstView>, st: Seq<(u32, u32)>, ct: Seq<(u32, Seq<u32>)>, k: int)
    requires
        0 <= k <= g.len(),
        combined_scan(g, st, ct, g.take(k)) is Err,
    ensures
        combined_scan(g, st, ct, g) == combined_scan(g, st, ct, g.take(k)),
    decreases g.len() - k,
{
    if k == g.len() {
        assert(g.take(k) =~= g);
    } else {
        assert(g.take(k + 1).drop_last() =~= g.take(k));
        lemma_scan_err(g, st, ct, k + 1);
    }
}

/// How an instruction consumes a combined-sampler value at its image operand.
#[derive(Debug, Clone, Copy, PartialEq, Eq, Structural)]
pub enum ConsumerKind {
    /// Takes a sampled image: an `OpSampledImage` is rebuilt before it.
    SampledImage,
    /// Takes a plain image: repointed straight at the image load.
    Image,
    /// `OpImage`, extracting the image: forwarded to the image load.
    ImageExtract,
}

/// How opcode `op` consumes its image operand (see [`classify_consumer`]).
pub open spec fn consumer_kind(op: u32) -> Option<ConsumerKind> {
    if (87 <= op <= 94) || op == 96 || op == 97 || op == 105
        || op == 305 || op == 306 || op == 307 || op == 309 || op == 310 || op == 311
        || op == 314 || op == 315 {
        Some(ConsumerKind::SampledImage)
    } else if op == 95 || op == 103 || op == 104 || op == 106 || op == 107 || op == 313 {
        Some(ConsumerKind::Image)
    } else if op == 100 {
        Some(ConsumerKind::ImageExtract)
    } else {
        None
    }
}

/// How opcode `op` consumes its image operand: the sampling, gather and
/// LOD-query opcodes take a sampled image; fetch and the size, level and
/// sample queries take an image; `OpImage` extracts one; anything else is not
/// a known consumer.
pub fn classify_consumer(op: u32) -> (k: Option<ConsumerKind>)
    ensures
        k == consumer_kind(op),
{
    if (87 <= op && op <= 94) || op == 96 || op == 97 || op == 105
        || op == 305 || op == 306 || op == 307 || op == 309 || op == 310 || op == 311
        || op == 314 || op == 315 {
        Some(ConsumerKind::SampledImage)
    } else if op == 95 || op == 103 || op == 104 || op == 106 || op == 107 || op == 313 {
        Some(ConsumerKind::Image)
    } else if op == 100 {
        Some(ConsumerKind::ImageExtract)
    } else {
        None
    }
}

/// Hands out fresh, never-used result ids, counting upward.
pub struct IdAllocator {
    pub next_id: u32,
}

impl IdAllocator {
    /// The next id, and the counter moved past it.
    pub fn fresh(&mut self) -> (id: u32)
        requires
            old(self).next_id < u32::MAX,
        ensures
            id == old(self).next_id,
            final(self).next_id == old(self).next_id + 1,
    {
        let id = self.next_id;
        self.next_id = self.next_id + 1;
        id
    }
}

/// The descriptor set of `t` (set 0 without a `DescriptorSet` decoration).
pub open spec fn set_or_zero(a: Seq<InstView>, t: u32) -> u32 {
    match last_deco(a, t, DECORATION_DESCRIPTOR_SET) {
        Some(s) => s,
        None => 0,
    }
}

/// The `(set, binding)` pairs already used, one per decoration of the
/// annotations `pre` that gives its target's (last) binding.
pub open spec fn used_pairs(a: Seq<InstView>, pre: Seq<InstView>) -> Seq<(u32, u32)>
    decreases pre.len(),
{
    if pre.len() == 0 {
        Seq::empty()
    } else {
        let prev = used_pairs(a, pre.drop_last());
        match decorate_entry(pre.last()) {
            Some((t, k, b)) => if k == DECORATION_BINDING && last_deco(a, t, DECORATION_BINDING) == Some(b) {
                prev.push((set_or_zero(a, t), b))
            } else {
                prev
            },
            None => prev,
        }
    }
}

/// The largest binding used in `set`.
pub open spec fn max_in(p: Seq<(u32, u32)>, set: u32) -> Option<u32>
    decreases p.len(),
{
    if p.len() == 0 {
        None
    } else {
        let prev = max_in(p.drop_last(), set);
        if p.last().0 == set {
            match prev {
                Some(m) => Some(if m >= p.last().1 { m } else { p.last().1 }),
                None => Some(p.last().1),
            }
        } else {
            prev
        }
    }
}

/// Allocates bindings for new sampler variables, per descriptor set: each is
/// one above the largest binding the set uses so far (0 in an empty set).
pub struct SamplerBindingAllocator {
    used: Vec<(u32, u32)>,
}

impl SamplerBindingAllocator {
    /// The `(set, binding)` pairs in use.
    pub closed spec fn pairs(&self) -> Seq<(u32, u32)> {
        self.used@
    }

    /// Every binding the annotations give a target, in its target's set.
    pub fn from_annotations(annotations: &Vec<SpirvInst>) -> (r: SamplerBindingAllocator)
        ensures
            r.pairs() == used_pairs(insts_view(annotations@), insts_view(annotations@)),
    {
        let ghost a = insts_view(annotations@);
        let mut used: Vec<(u32, u32)> = Vec::new();
        let mut i: usize = 0;
        assert(a.take(0) =~= Seq::<InstView>::empty());
        while i < annotations.len()
            invariant
                i <= annotations@.len(),
                a == insts_view(annotations@),
                used@ == used_pairs(a, a.take(i as int)),
            decreases annotations@.len() - i,
        {
            assert(a.take(i + 1).drop_last() =~= a.take(i as int));
            assert(a.take(i + 1).last() == annotations@[i as int]@);
            match entry_of(&annotations[i]) {
                Some((t, k, b)) => {
                    if k == DECORATION_BINDING {
                        match last_deco_exec(annotations, t, DECORATION_BINDING) {
                            Some(lb) => {
                                if lb == b {
                                    let set = match last_deco_exec(annotations, t, DECORATION_DESCRIPTOR_SET) {
                                        Some(s) => s,
                                        None => 0,
                                    };
                                    used.push((set, b));
                                }
                            },
                            None => {},
                        }
                    }
                },
                None => {},
            }
            i = i + 1;
        }
        assert(a.take(annotations@.len() as int) =~= a);
        SamplerBindingAllocator { used }
    }

    /// The largest binding used in `set`.
    fn max_binding(&self, set: u32) -> (r: Option<u32>)
        ensures
            r == max_in(self.pairs(), set),
    {
        let mut m: Option<u32> = None;
        let mut i: usize = 0;
        assert(self.used@.take(0) =~= Seq::<(u32, u32)>::empty());
        while i < self.used.len()
            invariant
                i <= self.used@.len(),
                m == max_in(self.used@.take(i as int), set),
            decreases self.used@.len() - i,
        {
            assert(self.used@.take(i + 1).drop_last() =~= self.used@.take(i as int));
            let (s, b) = self.used[i];
            if s == set {
                m = match m {
                    Some(x) => Some(if x >= b { x } else { b }),
                    None => Some(b),
                };
            }
            i = i + 1;
        }
        assert(self.used@.take(self.used@.len() as int) =~= self.used@);
        m
    }

    /// Whether a binding can still be allocated in `set`.
    pub open spec fn can_allocate(&self, set: u32) -> bool {
        match max_in(self.pairs(), set) {
            Some(m) => m < u32::MAX,
            None => true,
        }
    }

    /// Allocate a sampler binding in `set`: one above the set's largest
    /// binding (0 for an empty set), which is then in use.
    pub fn allocate(&mut self, set: u32, orig_binding: u32) -> (b: u32)
        requires
            old(self).can_allocate(set),
        ensures
            b == match max_in(old(self).pairs(), set) { Some(m) => (m + 1) as u32, None => 0u32 },
            final(self).pairs() == old(self).pairs().push((set, b)),
    {
        let b = match self.max_binding(set) {
            Some(m) => m + 1,
            None => 0,
        };
        self.used.push((set, b));
        b
    }

    /// Whether a binding can still be allocated in `set`.
    pub fn has_room(&self, set: u32) -> (r: bool)
        ensures
            r == self.can_allocate(set),
    {
        match self.max_binding(set) {
            Some(m) => m < u32::MAX,
            None => true,
        }
    }
}

/// One combined sampler's split: the variable, and the set and binding of the
/// sampler variable created beside it.
#[derive(Debug, Clone, Copy, PartialEq, Eq, Structural)]
pub struct SamplerSplit {
    pub var: CombinedVar,
    pub set: u32,
    pub binding: u32,
}

/// What to do with a stage's combined samplers.
#[derive(Debug, Clone, PartialEq, Eq)]
pub enum SplitPlan {
    /// No combined sampler: the words stay as they are.
    Unchanged,
    /// Split these, in declaration order; `sampler_type` is the module's first
    /// `OpTypeSampler`, when it has one (else one is to be added).
    Split { sampler_type: Option<u32>, splits: Vec<SamplerSplit> },
    /// A set's bindings already reach the largest 32-bit binding, so no
    /// sampler binding can be placed above them.
    BindingsExhausted,
}

/// The splits for `vars`, allocating from `alloc` in order; `None` when a set
/// runs out of bindings.
pub open spec fn splits_spec(a: Seq<InstView>, pairs: Seq<(u32, u32)>, vars: Seq<CombinedVar>) -> Option<Seq<SamplerSplit>>
    decreases vars.len(),
{
    if vars.len() == 0 {
        Some(Seq::empty())
    } else {
        match splits_spec(a, pairs, vars.drop_last()) {
            None => None,
            Some(prev) => {
                let all = pairs + prev.map_values(|s: SamplerSplit| (s.set, s.binding));
                let v = vars.last();
                let set = set_or_zero(a, v.var_id);
                match max_in(all, set) {
                    Some(m) => if m < u32::MAX {
                        Some(prev.push(SamplerSplit { var: v, set, binding: (m + 1) as u32 }))
                    } else {
                        None
                    },
                    None => Some(prev.push(SamplerSplit { var: v, set, binding: 0 })),
                }
            },
        }
    }
}

/// `r` is the split plan for the module with annotations `a` and globals `g`.
pub open spec fn plan_split_matches(a: Seq<InstView>, g: Seq<InstView>, r: Result<SplitPlan, SplitError>) -> bool {
    match combined_scan(g, sampled_table(g), component_table(g), g) {
        Err((var, p)) => r matches Err(SplitError::UnsupportedDeclaration(m)) && m@ == aggregate_message(var, p),
        Ok(vs) => if vs.len() == 0 {
            r matches Ok(SplitPlan::Unchanged)
        } else {
            match splits_spec(a, used_pairs(a, a), vs) {
                None => r matches Ok(SplitPlan::BindingsExhausted),
                Some(ss) => r matches Ok(SplitPlan::Split { sampler_type, splits })
                    && splits@ == ss
                    && sampler_type == (if sampler_table(g).len() > 0 { Some(sampler_table(g)[0]) } else { None::<u32> }),
            }
        },
    }
}

/// Plan the split of a stage's combined samplers: find them (see
/// [`find_combined_variables`]), and give each a sampler variable in the
/// variable's own descriptor set at the next binding above that set's largest
/// (counting the samplers already placed). Words that do not load are a
/// [`SplitError::Parse`] error.
pub fn plan_split(words: &[u32]) -> (r: Result<SplitPlan, SplitError>)
    ensures
        match spirv_load(words@) {
            Err(e) => r matches Err(SplitError::Parse(m)) && m@ == e,
            Ok((a, g)) => plan_split_matches(a, g, r),
        },
{
    let model = match load_spirv(words) {
        Ok(m) => m,
        Err(e) => return Err(SplitError::Parse(e)),
    };
    plan_split_model(&model)
}

/// [`plan_split`] on a loaded module.
pub fn plan_split_model(model: &SpirvModel) -> (r: Result<SplitPlan, SplitError>)
    ensures
        plan_split_matches(insts_view(model.annotations@), insts_view(model.globals@), r),
{
    let types = TypeIndex::build(&model.globals);
    let vars = match find_combined_variables(&model.globals, &types) {
        Ok(v) => v,
        Err(e) => return Err(e),
    };
    let ghost g = insts_view(model.globals@);
    assert(combined_scan(g, sampled_table(g), component_table(g), g) == Ok::<Seq<CombinedVar>, (u32, u32)>(vars@));
    if vars.len() == 0 {
        return Ok(SplitPlan::Unchanged);
    }
    match splits_for(&model.annotations, &vars) {
        None => Ok(SplitPlan::BindingsExhausted),
        Some(splits) => {
            let sampler_type = if types.sampler_type_ids.len() > 0 { Some(types.sampler_type_ids[0]) } else { None };
            Ok(SplitPlan::Split { sampler_type, splits })
        },
    }
}

/// The sampler split of each combined variable `vars`, in order (see
/// [`splits_spec`]); `None` when a set runs out of bindings.
pub(crate) fn splits_for(annotations: &Vec<SpirvInst>, vars: &Vec<CombinedVar>) -> (r: Option<Vec<SamplerSplit>>)
    ensures
        match splits_spec(insts_view(annotations@), used_pairs(insts_view(annotations@), insts_view(annotations@)), vars@) {
            None => r is None,
            Some(ss) => r matches Some(v) && v@ == ss,
        },
{
    let ghost a = insts_view(annotations@);
    let mut alloc = SamplerBindingAllocator::from_annotations(annotations);
    let mut splits: Vec<SamplerSplit> = Vec::new();
    let mut k: usize = 0;
    assert(vars@.take(0) =~= Seq::<CombinedVar>::empty());
    assert(splits@.map_values(|s: SamplerSplit| (s.set, s.binding)) =~= Seq::<(u32, u32)>::empty());
    assert(used_pairs(a, a) + Seq::<(u32, u32)>::empty() =~= used_pairs(a, a));
    while k < vars.len()
        invariant
            k <= vars@.len(),
            a == insts_view(annotations@),
            splits_spec(a, used_pairs(a, a), vars@.take(k as int)) == Some(splits@),
            alloc.pairs() == used_pairs(a, a) + splits@.map_values(|s: SamplerSplit| (s.set, s.binding)),
        decreases vars@.len() - k,
    {
        assert(vars@.take(k + 1).drop_last() =~= vars@.take(k as int));
        assert(vars@.take(k + 1).last() == vars@[k as int]);
        let v = vars[k];
        let set = match last_deco_exec(annotations, v.var_id, DECORATION_DESCRIPTOR_SET) {
            Some(s) => s,
            None => 0,
        };
        let orig = match last_deco_exec(annotations, v.var_id, DECORATION_BINDING) {
            Some(b) => b,
            None => 0,
        };
        if !alloc.has_room(set) {
            proof {
                assert(set == set_or_zero(a, v.var_id));
                assert(splits_spec(a, used_pairs(a, a), vars@.take(k + 1)) is None);
                lemma_splits_none(a, used_pairs(a, a), vars@, (k + 1) as int);
            }
            return None;
        }
        let binding = alloc.allocate(set, orig);
        let ghost before = splits@.map_values(|s: SamplerSplit| (s.set, s.binding));
        let sp = SamplerSplit { var: v, set, binding };
        splits.push(sp);
        assert(splits@.map_values(|s: SamplerSplit| (s.set, s.binding)) =~= before.push((set, binding)));
        k = k + 1;
    }
    assert(vars@.take(vars@.len() as int) =~= vars@);
    Some(splits)
}

/// Once a set runs out of bindings, the whole split does.
proof fn lemma_splits_none(a: Seq<InstView>, pairs: Seq<(u32, u32)>, vars: Seq<CombinedVar>, k: int)
    requires
        0 <= k <= vars.len(),
        splits_spec(a, pairs, vars.take(k)) is None,
    ensures
        splits_spec(a, pairs, vars) is None,
    decreases vars.len() - k,
{
    if k == vars.len() {
        assert(vars.take(k) =~= vars);
    } else {
        assert(vars.take(k + 1).drop_last() =~= vars.take(k));
        lemma_splits_none(a, pairs, vars, k + 1);
    }
}


/// Every binding a set uses is at most the set's largest (`max_in`), and a set
/// with no largest binding uses none.
proof fn lemma_max_in_bounds(p: Seq<(u32, u32)>, set: u32)
    ensures
        match max_in(p, set) {
            Some(m) => forall|j: int| 0 <= j < p.len() && p[j].0 == set ==> p[j].1 <= m,
            None => forall|j: int| 0 <= j < p.len() ==> p[j].0 != set,
        },
    decreases p.len(),
{
    if p.len() > 0 {
        lemma_max_in_bounds(p.drop_last(), set);
        assert forall|j: int| 0 <= j < p.len() - 1 implies p[j] == p.drop_last()[j] by {}
    }
}

/// A split gives each combined sampler, in order, a sampler binding in the
/// variable's own descriptor set that lies above every binding that set
/// already used and above every sampler binding placed in it before, so no new
/// binding collides with another.
pub proof fn lemma_split_bindings_fresh(a: Seq<InstView>, pairs: Seq<(u32, u32)>, vars: Seq<CombinedVar>)
    requires
        splits_spec(a, pairs, vars) is Some,
    ensures
        ({
            let ss = splits_spec(a, pairs, vars)->0;
            &&& ss.len() == vars.len()
            &&& forall|i: int| 0 <= i < ss.len() ==> #[trigger] ss[i].var == vars[i] && ss[i].set == set_or_zero(a, vars[i].var_id)
            &&& forall|i: int, j: int| 0 <= i < ss.len() && 0 <= j < pairs.len() && pairs[j].0 == ss[i].set
                ==> #[trigger] pairs[j].1 < #[trigger] ss[i].binding
            &&& forall|i: int, k: int| 0 <= k < i < ss.len() && ss[k].set == ss[i].set
                ==> #[trigger] ss[k].binding < #[trigger] ss[i].binding
        }),
    decreases vars.len(),
{
    if vars.len() > 0 {
        let prev = splits_spec(a, pairs, vars.drop_last())->0;
        lemma_split_bindings_fresh(a, pairs, vars.drop_last());
        let all = pairs + prev.map_values(|s: SamplerSplit| (s.set, s.binding));
        let v = vars.last();
        let set = set_or_zero(a, v.var_id);
        lemma_max_in_bounds(all, set);
        let ss = splits_spec(a, pairs, vars)->0;
        assert(ss == prev.push(ss.last()));
        let n = (ss.len() - 1) as int;
        assert forall|i: int| 0 <= i < ss.len() implies #[trigger] ss[i].var == vars[i] && ss[i].set == set_or_zero(a, vars[i].var_id) by {
            if i < n {
                assert(ss[i] == prev[i]);
                assert(vars[i] == vars.drop_last()[i]);
            }
        }
        assert forall|i: int, j: int| 0 <= i < ss.len() && 0 <= j < pairs.len() && pairs[j].0 == ss[i].set
            implies #[trigger] pairs[j].1 < #[trigger] ss[i].binding by {
            if i < n {
                assert(ss[i] == prev[i]);
            } else {
                assert(all[j] == pairs[j]);
            }
        }
        assert forall|i: int, k: int| 0 <= k < i < ss.len() && ss[k].set == ss[i].set
            implies #[trigger] ss[k].binding < #[trigger] ss[i].binding by {
            assert(ss[k] == prev[k]);
            if i < n {
                assert(ss[i] == prev[i]);
            } else {
                assert(all[pairs.len() + k] == (prev[k].set, prev[k].binding));
            }
        }
    }
}

} // verus!
