//! Binary SPIR-V reflection data: uniform blocks with each member's offset,
//! size and kind, plus texture and sampler bindings, merged across the vertex
//! and fragment stages. The stage-level input is a plain description of the
//! module's global variables ([`GlobalDecl`]).

use vstd::prelude::*;
use crate::text::{chars_of, chars_of_string, vec_eq};

verus! {

/// Errors from SPIR-V reflection.
#[derive(Debug)]
pub enum ReflectError {
    /// naga could not parse a stage's SPIR-V word stream.
    Parse {
        /// Which stage failed (`"vertex"` / `"fragment"`).
        stage: &'static str,
        /// naga's error, rendered.
        message: String,
    },
}


/// The element scalar of a member.
#[derive(Debug, Clone, Copy, PartialEq, Eq, Structural)]
pub enum ScalarType {
    Float,
    Uint,
    Sint,
    Bool,
}

/// The scalar/vector/matrix shape of a uniform-block member.
#[derive(Debug, Clone, Copy, PartialEq, Eq, Structural)]
pub enum MemberKind {
    /// A single scalar.
    Scalar(ScalarType),
    /// A vector of `len` components.
    Vector { scalar: ScalarType, len: u8 },
    /// A `cols`×`rows` matrix of floats.
    Matrix { cols: u8, rows: u8 },
    /// Anything else (array, struct, ...).
    Other,
}

/// One member of a uniform block.
#[derive(Debug, Clone, PartialEq, Eq)]
pub struct UniformMember {
    /// The member's GLSL name.
    pub name: String,
    /// Byte offset from the start of the block.
    pub offset: u32,
    /// Byte size of the member's type (std140 base size).
    pub size: u32,
    /// Scalar/vector/matrix classification.
    pub kind: MemberKind,
}

/// Where a uniform block binds.
#[derive(Debug, Clone, Copy, PartialEq, Eq, Structural)]
pub enum BlockBinding {
    /// A descriptor-bound uniform buffer.
    Uniform { set: u32, binding: u32 },
    /// A push-constant block.
    PushConstant,
}

/// A reflected uniform block and its members.
#[derive(Debug, Clone, PartialEq, Eq)]
pub struct UniformBlock {
    /// The block's instance/type name, if preserved.
    pub name: Option<String>,
    /// Where it binds.
    pub binding: BlockBinding,
    /// Total block size in bytes.
    pub size: u32,
    /// Members in declaration order.
    pub members: Vec<UniformMember>,
}

/// A reflected texture or sampler global.
#[derive(Debug, Clone, PartialEq, Eq)]
pub struct ResourceBinding {
    /// The global's GLSL name.
    pub name: String,
    /// Descriptor set.
    pub set: u32,
    /// Binding number within the set.
    pub binding: u32,
}

/// The merged reflection of a compiled pass.
#[derive(Debug, Clone, PartialEq, Eq)]
pub struct SpirvReflection {
    /// Uniform and push-constant blocks, one per binding.
    pub blocks: Vec<UniformBlock>,
    /// Sampled-texture globals, one per `(set, binding)`.
    pub textures: Vec<ResourceBinding>,
    /// Sampler globals, one per `(set, binding)`.
    pub samplers: Vec<ResourceBinding>,
}

/// A member's content: name, offset, size, kind.
pub type MemberView = (Seq<char>, u32, u32, MemberKind);
/// A block's content: name, binding, size, members.
pub type BlockView = (Option<Seq<char>>, BlockBinding, u32, Seq<MemberView>);
/// A resource binding's content: name, set, binding.
pub type ResourceView = (Seq<char>, u32, u32);

impl View for UniformMember {
    type V = MemberView;

    open spec fn view(&self) -> MemberView {
        (self.name@, self.offset, self.size, self.kind)
    }
}

/// The view of an optional name.
pub open spec fn opt_name(n: Option<String>) -> Option<Seq<char>> {
    match n {
        Some(s) => Some(s@),
        None => None,
    }
}

impl View for UniformBlock {
    type V = BlockView;

    open spec fn view(&self) -> BlockView {
        (opt_name(self.name), self.binding, self.size, self.members@.map_values(|m: UniformMember| m@))
    }
}

impl View for ResourceBinding {
    type V = ResourceView;

    open spec fn view(&self) -> ResourceView {
        (self.name@, self.set, self.binding)
    }
}

/// The reflection's content: blocks, textures, samplers.
pub type ReflectionView = (Seq<BlockView>, Seq<ResourceView>, Seq<ResourceView>);

impl View for SpirvReflection {
    type V = ReflectionView;

    open spec fn view(&self) -> ReflectionView {
        (
            self.blocks@.map_values(|b: UniformBlock| b@),
            self.textures@.map_values(|r: ResourceBinding| r@),
            self.samplers@.map_values(|r: ResourceBinding| r@),
        )
    }
}

/// The index of the first occurrence of `name` in `names`, if any.
pub open spec fn first_index_of(names: Seq<Seq<char>>, name: Seq<char>) -> Option<nat>
    decreases names.len(),
{
    if names.len() == 0 {
        None
    } else {
        match first_index_of(names.drop_last(), name) {
            Some(i) => Some(i),
            None => if names.last() == name { Some((names.len() - 1) as nat) } else { None },
        }
    }
}

/// A found first occurrence in a prefix is the first occurrence overall.
pub proof fn lemma_first_index_extends(names: Seq<Seq<char>>, name: Seq<char>, k: int)
    requires
        0 <= k <= names.len(),
        first_index_of(names.take(k), name) is Some,
    ensures
        first_index_of(names, name) == first_index_of(names.take(k), name),
        first_index_of(names, name).unwrap() < k,
    decreases names.len() - k,
{
    if k == names.len() {
        assert(names.take(k) =~= names);
    } else {
        assert(names.take(k + 1).drop_last() =~= names.take(k));
        lemma_first_index_extends(names, name, k + 1);
    }
    lemma_first_index_bound(names.take(k), name);
}

/// The first occurrence lies inside the sequence and holds the name.
pub proof fn lemma_first_index_bound(names: Seq<Seq<char>>, name: Seq<char>)
    ensures
        first_index_of(names, name) matches Some(i) ==> i < names.len() && names[i as int] == name,
        first_index_of(names, name) is None ==> forall|j: int| 0 <= j < names.len() ==> names[j] != name,
    decreases names.len(),
{
    if names.len() > 0 {
        lemma_first_index_bound(names.drop_last(), name);
        if first_index_of(names.drop_last(), name) is None {
            assert forall|j: int| 0 <= j < names.len() - 1 implies names[j] != name by {
                assert(names.drop_last()[j] == names[j]);
            }
        }
    }
}

/// Scanning one more element after no match so far.
pub proof fn lemma_first_index_step(names: Seq<Seq<char>>, name: Seq<char>, i: int)
    requires
        0 <= i < names.len(),
        first_index_of(names.take(i), name) is None,
    ensures
        first_index_of(names.take(i + 1), name) == if names[i] == name { Some(i as nat) } else { None::<nat> },
{
    assert(names.take(i + 1).drop_last() =~= names.take(i));
}

/// The names of a block's members.
pub open spec fn member_names(b: BlockView) -> Seq<Seq<char>> {
    b.3.map_values(|m: MemberView| m.0)
}

impl UniformBlock {
    /// Find a member by exact name: the first one declared with that name.
    pub fn member(&self, name: &str) -> (r: Option<&UniformMember>)
        ensures
            match first_index_of(member_names(self@), name@) {
                Some(i) => r == Some(&self.members@[i as int]),
                None => r is None,
            },
    {
        let target = chars_of(name);
        let ghost names = member_names(self@);
        let mut i: usize = 0;
        while i < self.members.len()
            invariant
                i <= self.members@.len(),
                target@ == name@,
                names == member_names(self@),
                names.len() == self.members@.len(),
                first_index_of(names.take(i as int), name@) is None,
            decreases self.members@.len() - i,
        {
            let n = chars_of_string(&self.members[i].name);
            assert(names[i as int] == self.members@[i as int].name@);
            proof { lemma_first_index_step(names, name@, i as int); }
            if vec_eq(&n, &target) {
                proof { lemma_first_index_extends(names, name@, i + 1); }
                return Some(&self.members[i]);
            }
            i = i + 1;
        }
        assert(names.take(names.len() as int) =~= names);
        None
    }
}

/// The first block declaring a member named `name`, with that member's index.
pub open spec fn find_member_spec(blocks: Seq<BlockView>, name: Seq<char>) -> Option<(nat, nat)>
    decreases blocks.len(),
{
    if blocks.len() == 0 {
        None
    } else {
        match find_member_spec(blocks.drop_last(), name) {
            Some(r) => Some(r),
            None => match first_index_of(member_names(blocks.last()), name) {
                Some(m) => Some(((blocks.len() - 1) as nat, m)),
                None => None,
            },
        }
    }
}

proof fn lemma_find_member_extends(blocks: Seq<BlockView>, name: Seq<char>, k: int)
    requires
        0 <= k <= blocks.len(),
        find_member_spec(blocks.take(k), name) is Some,
    ensures
        find_member_spec(blocks, name) == find_member_spec(blocks.take(k), name),
    decreases blocks.len() - k,
{
    if k == blocks.len() {
        assert(blocks.take(k) =~= blocks);
    } else {
        assert(blocks.take(k + 1).drop_last() =~= blocks.take(k));
        lemma_find_member_extends(blocks, name, k + 1);
    }
}

impl SpirvReflection {
    /// Find a member by name across all blocks: the first block (in block
    /// order) declaring it, and that block's first member of that name.
    pub fn find_member(&self, name: &str) -> (r: Option<(&UniformBlock, &UniformMember)>)
        ensures
            match find_member_spec(self@.0, name@) {
                Some((b, m)) => r == Some((&self.blocks@[b as int], &self.blocks@[b as int].members@[m as int])),
                None => r is None,
            },
    {
        let ghost bs = self@.0;
        let mut i: usize = 0;
        while i < self.blocks.len()
            invariant
                i <= self.blocks@.len(),
                bs == self@.0,
                bs.len() == self.blocks@.len(),
                find_member_spec(bs.take(i as int), name@) is None,
            decreases self.blocks@.len() - i,
        {
            let b = &self.blocks[i];
            assert(bs.take(i + 1).drop_last() =~= bs.take(i as int));
            assert(bs[i as int] == b@);
            match b.member(name) {
                Some(m) => {
                    proof { lemma_find_member_extends(bs, name@, i + 1); }
                    return Some((b, m));
                },
                None => {},
            }
            i = i + 1;
        }
        assert(bs.take(bs.len() as int) =~= bs);
        None
    }
}

/// Whether a resource list already holds `(set, binding)`.
pub open spec fn has_slot(list: Seq<ResourceView>, set: u32, binding: u32) -> bool {
    exists|i: int| 0 <= i < list.len() && list[i].1 == set && list[i].2 == binding
}

/// Push a resource binding unless one with the same `(set, binding)` is
/// already present.
pub fn push_unique_resource(list: &mut Vec<ResourceBinding>, res: ResourceBinding)
    ensures
        final(list)@.map_values(|r: ResourceBinding| r@) == if has_slot(old(list)@.map_values(|r: ResourceBinding| r@), res.set, res.binding) {
            old(list)@.map_values(|r: ResourceBinding| r@)
        } else {
            old(list)@.map_values(|r: ResourceBinding| r@).push(res@)
        },
{
    let ghost lv = list@.map_values(|r: ResourceBinding| r@);
    let mut i: usize = 0;
    while i < list.len()
        invariant
            i <= list@.len(),
            lv == list@.map_values(|r: ResourceBinding| r@),
            forall|j: int| 0 <= j < i ==> !(lv[j].1 == res.set && lv[j].2 == res.binding),
        decreases list@.len() - i,
    {
        if list[i].set == res.set && list[i].binding == res.binding {
            assert(lv[i as int].1 == res.set && lv[i as int].2 == res.binding);
            return;
        }
        i = i + 1;
    }
    let ghost rv = res@;
    list.push(res);
    assert(list@.map_values(|r: ResourceBinding| r@) =~= lv.push(rv));
}

/// The storage class of a module-scope variable.
#[derive(Debug, Clone, Copy, PartialEq, Eq, Structural)]
pub enum AddressSpaceKind {
    /// A uniform buffer.
    Uniform,
    /// A push-constant (immediate) block.
    Immediate,
    /// An opaque handle: texture or sampler.
    Handle,
    /// Any other storage class.
    Other,
}

/// A scalar kind as the parsed module reports it.
#[derive(Debug, Clone, Copy, PartialEq, Eq, Structural)]
pub enum ScalarKindDecl {
    Float,
    Uint,
    Sint,
    Bool,
    AbstractInt,
    AbstractFloat,
}

/// The shape of a struct member's type as the parsed module reports it;
/// matrix and other sizes are the module's own (column-aligned) byte sizes.
#[derive(Debug, Clone, Copy, PartialEq, Eq, Structural)]
pub enum TypeShape {
    /// A scalar of `width` bytes.
    Scalar { kind: ScalarKindDecl, width: u8 },
    /// A vector of `size` components, each `width` bytes.
    Vector { size: u8, kind: ScalarKindDecl, width: u8 },
    /// A matrix with its byte size.
    Matrix { columns: u8, rows: u8, size: u32 },
    /// Any other type with its byte size.
    Other { size: u32 },
}

/// A struct member of a block type.
#[derive(Debug, Clone, PartialEq, Eq)]
pub struct MemberDecl {
    /// Member name, if the module preserved one.
    pub name: Option<String>,
    /// Byte offset within the struct.
    pub offset: u32,
    /// The member type's shape.
    pub shape: TypeShape,
}

/// The type of a module-scope variable.
#[derive(Debug, Clone, PartialEq, Eq)]
pub enum GlobalType {
    /// A struct (a block) with its members and total span.
    Struct { members: Vec<MemberDecl>, span: u32 },
    /// A sampled or depth image.
    SampledImage,
    /// A sampler.
    Sampler,
    /// Anything else.
    Other,
}

/// One module-scope variable of a parsed stage.
#[derive(Debug, Clone, PartialEq, Eq)]
pub struct GlobalDecl {
    /// The variable's name, if preserved.
    pub name: Option<String>,
    /// Its storage class.
    pub space: AddressSpaceKind,
    /// Its `(set, binding)`, if decorated.
    pub binding: Option<(u32, u32)>,
    /// Its type.
    pub ty: GlobalType,
}

/// Map a parsed scalar kind to [`ScalarType`] (abstract kinds read as float).
pub open spec fn scalar_type_spec(k: ScalarKindDecl) -> ScalarType {
    match k {
        ScalarKindDecl::Float => ScalarType::Float,
        ScalarKindDecl::Uint => ScalarType::Uint,
        ScalarKindDecl::Sint => ScalarType::Sint,
        ScalarKindDecl::Bool => ScalarType::Bool,
        _ => ScalarType::Float,
    }
}

fn scalar_type(k: ScalarKindDecl) -> (t: ScalarType)
    ensures
        t == scalar_type_spec(k),
{
    match k {
        ScalarKindDecl::Float => ScalarType::Float,
        ScalarKindDecl::Uint => ScalarType::Uint,
        ScalarKindDecl::Sint => ScalarType::Sint,
        ScalarKindDecl::Bool => ScalarType::Bool,
        ScalarKindDecl::AbstractInt | ScalarKindDecl::AbstractFloat => ScalarType::Float,
    }
}

/// Classify a member type into the scalar/vector/matrix taxonomy.
pub open spec fn classify_shape(s: TypeShape) -> MemberKind {
    match s {
        TypeShape::Scalar { kind, .. } => MemberKind::Scalar(scalar_type_spec(kind)),
        TypeShape::Vector { size, kind, .. } => MemberKind::Vector { scalar: scalar_type_spec(kind), len: size },
        TypeShape::Matrix { columns, rows, .. } => MemberKind::Matrix { cols: columns, rows },
        TypeShape::Other { .. } => MemberKind::Other,
    }
}

/// Reflection keeps a member's scalar kind: a member declared as a signed
/// integer reflects to a signed-integer scalar (and a vector of them to a
/// vector of signed integers), an unsigned one to unsigned, a float to float
/// and a bool to bool (the abstract kinds, which a SPIR-V binary never holds,
/// read as float); and only a signed declaration reflects to a signed scalar,
/// only an unsigned one to an unsigned scalar.
pub proof fn lemma_member_keeps_scalar_kind(d: MemberDecl)
    ensures
        d.shape is Scalar && d.shape->Scalar_kind == ScalarKindDecl::Sint
            ==> member_of_decl(d).3 == MemberKind::Scalar(ScalarType::Sint),
        d.shape is Scalar && d.shape->Scalar_kind == ScalarKindDecl::Uint
            ==> member_of_decl(d).3 == MemberKind::Scalar(ScalarType::Uint),
        d.shape is Scalar && d.shape->Scalar_kind == ScalarKindDecl::Float
            ==> member_of_decl(d).3 == MemberKind::Scalar(ScalarType::Float),
        d.shape is Scalar && d.shape->Scalar_kind == ScalarKindDecl::Bool
            ==> member_of_decl(d).3 == MemberKind::Scalar(ScalarType::Bool),
        d.shape is Vector && d.shape->Vector_kind == ScalarKindDecl::Sint
            ==> member_of_decl(d).3 == (MemberKind::Vector { scalar: ScalarType::Sint, len: d.shape->Vector_size }),
        d.shape is Vector && d.shape->Vector_kind == ScalarKindDecl::Uint
            ==> member_of_decl(d).3 == (MemberKind::Vector { scalar: ScalarType::Uint, len: d.shape->Vector_size }),
        d.shape is Vector && d.shape->Vector_kind == ScalarKindDecl::Float
            ==> member_of_decl(d).3 == (MemberKind::Vector { scalar: ScalarType::Float, len: d.shape->Vector_size }),
        d.shape is Vector && d.shape->Vector_kind == ScalarKindDecl::Bool
            ==> member_of_decl(d).3 == (MemberKind::Vector { scalar: ScalarType::Bool, len: d.shape->Vector_size }),
        d.shape is Scalar && (d.shape->Scalar_kind == ScalarKindDecl::AbstractInt || d.shape->Scalar_kind == ScalarKindDecl::AbstractFloat)
            ==> member_of_decl(d).3 == MemberKind::Scalar(ScalarType::Float),
        member_of_decl(d).3 == MemberKind::Scalar(ScalarType::Sint)
            ==> d.shape is Scalar && d.shape->Scalar_kind == ScalarKindDecl::Sint,
        member_of_decl(d).3 == MemberKind::Scalar(ScalarType::Uint)
            ==> d.shape is Scalar && d.shape->Scalar_kind == ScalarKindDecl::Uint,
{
}

/// The byte size of a member type: a scalar's width, a vector's
/// `components × width`, else the module's own size.
pub open spec fn type_size_spec(s: TypeShape) -> u32 {
    match s {
        TypeShape::Scalar { width, .. } => width as u32,
        TypeShape::Vector { size, width, .. } => (size as nat * width as nat) as u32,
        TypeShape::Matrix { size, .. } => size,
        TypeShape::Other { size } => size,
    }
}

/// The member a declaration reflects to (an absent name reads as empty).
pub open spec fn member_of_decl(d: MemberDecl) -> MemberView {
    (match d.name { Some(n) => n@, None => Seq::empty() }, d.offset, type_size_spec(d.shape), classify_shape(d.shape))
}

fn classify(s: TypeShape) -> (k: MemberKind)
    ensures
        k == classify_shape(s),
{
    match s {
        TypeShape::Scalar { kind, .. } => MemberKind::Scalar(scalar_type(kind)),
        TypeShape::Vector { size, kind, .. } => MemberKind::Vector { scalar: scalar_type(kind), len: size },
        TypeShape::Matrix { columns, rows, .. } => MemberKind::Matrix { cols: columns, rows },
        TypeShape::Other { .. } => MemberKind::Other,
    }
}

fn type_size(s: TypeShape) -> (n: u32)
    ensures
        n == type_size_spec(s),
{
    match s {
        TypeShape::Scalar { width, .. } => width as u32,
        TypeShape::Vector { size, width, .. } => {
            assert((size as int) * (width as int) <= 255 * 255) by (nonlinear_arith)
                requires size <= 255u8, width <= 255u8;
            size as u32 * width as u32
        },
        TypeShape::Matrix { size, .. } => size,
        TypeShape::Other { size } => size,
    }
}

fn reflect_member(d: &MemberDecl) -> (m: UniformMember)
    ensures
        m@ == member_of_decl(*d),
{
    let name = match &d.name {
        Some(n) => n.clone(),
        None => String::new(),
    };
    UniformMember { name, offset: d.offset, size: type_size(d.shape), kind: classify(d.shape) }
}

/// The index of the first block at `binding`, if any.
pub open spec fn block_at(blocks: Seq<BlockView>, binding: BlockBinding) -> Option<nat> {
    if exists|i: int| 0 <= i < blocks.len() && blocks[i].1 == binding {
        Some((choose|i: int| 0 <= i < blocks.len() && blocks[i].1 == binding
            && forall|j: int| 0 <= j < i ==> blocks[j].1 != binding) as nat)
    } else {
        None
    }
}

/// Merge a freshly reflected block: if a block already sits at its binding,
/// keep whichever has more members (or, with as many, the larger size);
/// otherwise append it.
pub open spec fn merge_block_spec(blocks: Seq<BlockView>, b: BlockView) -> Seq<BlockView> {
    match block_at(blocks, b.1) {
        Some(i) => {
            let e = blocks[i as int];
            if b.3.len() > e.3.len() || (b.3.len() == e.3.len() && b.2 > e.2) {
                blocks.update(i as int, b)
            } else {
                blocks
            }
        },
        None => blocks.push(b),
    }
}

/// Merge `block` into `acc` by binding (see [`merge_block_spec`]).
pub fn merge_block(acc: &mut SpirvReflection, block: UniformBlock)
    ensures
        final(acc)@ == (merge_block_spec(old(acc)@.0, block@), old(acc)@.1, old(acc)@.2),
{
    let ghost bs = acc@.0;
    let mut i: usize = 0;
    while i < acc.blocks.len()
        invariant
            i <= acc.blocks@.len(),
            acc@ == old(acc)@,
            acc.blocks@ == old(acc).blocks@,
            bs == acc@.0,
            bs.len() == acc.blocks@.len(),
            forall|j: int| 0 <= j < i ==> bs[j].1 != block.binding,
        decreases acc.blocks@.len() - i,
    {
        if acc.blocks[i].binding == block.binding {
            assert(bs[i as int].1 == block.binding);
            assert(block_at(bs, block.binding) == Some(i as nat)) by {
                let k = choose|k: int| 0 <= k < bs.len() && bs[k].1 == block.binding
                    && forall|j: int| 0 <= j < k ==> bs[j].1 != block.binding;
                assert(k == i);
            }
            assert(bs[i as int].3.len() == acc.blocks@[i as int].members@.len());
            assert(bs[i as int].2 == acc.blocks@[i as int].size);
            assert(block@.3.len() == block.members@.len());
            let replace = block.members.len() > acc.blocks[i].members.len()
                || (block.members.len() == acc.blocks[i].members.len() && block.size > acc.blocks[i].size);
            if replace {
                let ghost bv = block@;
                acc.blocks.set(i, block);
                assert(acc@.0 =~= bs.update(i as int, bv));
            }
            return;
        }
        i = i + 1;
    }
    let ghost bv = block@;
    assert(block_at(bs, block.binding) is None);
    acc.blocks.push(block);
    assert(acc@.0 =~= bs.push(bv));
    assert(acc@.1 == old(acc)@.1);
    assert(acc@.2 == old(acc)@.2);
    assert(merge_block_spec(bs, bv) == bs.push(bv));
}

/// The block a uniform/immediate struct global reflects to, if it binds.
pub open spec fn global_block_binding(g: GlobalDecl) -> Option<BlockBinding> {
    match (g.space, g.binding) {
        (AddressSpaceKind::Immediate, _) => Some(BlockBinding::PushConstant),
        (_, Some((set, binding))) => Some(BlockBinding::Uniform { set, binding }),
        _ => None,
    }
}

/// One global's effect on the accumulated reflection.
pub open spec fn reflect_global(acc: ReflectionView, g: GlobalDecl) -> ReflectionView {
    match g.space {
        AddressSpaceKind::Uniform | AddressSpaceKind::Immediate => match g.ty {
            GlobalType::Struct { members, span } => match global_block_binding(g) {
                Some(binding) => (
                    merge_block_spec(acc.0, (opt_name(g.name), binding, span, members@.map_values(|d: MemberDecl| member_of_decl(d)))),
                    acc.1,
                    acc.2,
                ),
                None => acc,
            },
            _ => acc,
        },
        AddressSpaceKind::Handle => match g.binding {
            Some((set, binding)) => {
                let r: ResourceView = (match g.name { Some(n) => n@, None => Seq::empty() }, set, binding);
                match g.ty {
                    GlobalType::SampledImage => (acc.0, if has_slot(acc.1, set, binding) { acc.1 } else { acc.1.push(r) }, acc.2),
                    GlobalType::Sampler => (acc.0, acc.1, if has_slot(acc.2, set, binding) { acc.2 } else { acc.2.push(r) }),
                    _ => acc,
                }
            },
            None => acc,
        },
        AddressSpaceKind::Other => acc,
    }
}

/// The accumulated reflection after a sequence of globals.
pub open spec fn reflect_globals_spec(acc: ReflectionView, gs: Seq<GlobalDecl>) -> ReflectionView
    decreases gs.len(),
{
    if gs.len() == 0 {
        acc
    } else {
        reflect_global(reflect_globals_spec(acc, gs.drop_last()), gs.last())
    }
}

/// Merge one stage's globals into `acc`: struct-typed uniform and push-constant
/// globals become blocks (a uniform block without a binding is skipped), bound
/// sampled images become textures and bound samplers become samplers, each
/// deduplicated as in [`merge_block`] and [`push_unique_resource`].
pub fn reflect_stage(globals: &[GlobalDecl], acc: &mut SpirvReflection)
    ensures
        final(acc)@ == reflect_globals_spec(old(acc)@, globals@),
{
    let ghost start = acc@;
    let mut i: usize = 0;
    while i < globals.len()
        invariant
            i <= globals@.len(),
            acc@ == reflect_globals_spec(start, globals@.take(i as int)),
        decreases globals@.len() - i,
    {
        let g = &globals[i];
        assert(globals@.take(i + 1).drop_last() =~= globals@.take(i as int));
        let ghost before = acc@;
        match g.space {
            AddressSpaceKind::Uniform | AddressSpaceKind::Immediate => {
                match &g.ty {
                    GlobalType::Struct { members, span } => {
                        let binding = match (g.space, g.binding) {
                            (AddressSpaceKind::Immediate, _) => Some(BlockBinding::PushConstant),
                            (_, Some((set, binding))) => Some(BlockBinding::Uniform { set, binding }),
                            _ => None,
                        };
                        match binding {
                            Some(binding) => {
                                let mut ms: Vec<UniformMember> = Vec::new();
                                let mut j: usize = 0;
                                while j < members.len()
                                    invariant
                                        j <= members@.len(),
                                        ms@.map_values(|m: UniformMember| m@) =~= members@.take(j as int).map_values(|d: MemberDecl| member_of_decl(d)),
                                    decreases members@.len() - j,
                                {
                                    let m = reflect_member(&members[j]);
                                    let ghost before_ms = ms@.map_values(|m: UniformMember| m@);
                                    ms.push(m);
                                    assert(members@.take(j + 1) =~= members@.take(j as int).push(members@[j as int]));
                                    assert(ms@.map_values(|m: UniformMember| m@) =~= before_ms.push(m@));
                                    j = j + 1;
                                }
                                assert(members@.take(members@.len() as int) =~= members@);
                                let name = match &g.name { Some(n) => Some(n.clone()), None => None };
                                merge_block(acc, UniformBlock { name, binding, size: *span, members: ms });
                            },
                            None => {},
                        }
                    },
                    _ => {},
                }
            },
            AddressSpaceKind::Handle => {
                match g.binding {
                    Some((set, binding)) => {
                        let name = match &g.name { Some(n) => n.clone(), None => String::new() };
                        match &g.ty {
                            GlobalType::SampledImage => {
                                push_unique_resource(&mut acc.textures, ResourceBinding { name, set, binding });
                            },
                            GlobalType::Sampler => {
                                push_unique_resource(&mut acc.samplers, ResourceBinding { name, set, binding });
                            },
                            _ => {},
                        }
                    },
                    None => {},
                }
            },
            AddressSpaceKind::Other => {},
        }
        assert(acc@ == reflect_global(before, globals@[i as int]));
        i = i + 1;
    }
    assert(globals@.take(globals@.len() as int) =~= globals@);
}

impl SpirvReflection {
    /// An empty reflection.
    pub fn new() -> (r: SpirvReflection)
        ensures
            r@ == (Seq::<BlockView>::empty(), Seq::<ResourceView>::empty(), Seq::<ResourceView>::empty()),
    {
        let r = SpirvReflection { blocks: Vec::new(), textures: Vec::new(), samplers: Vec::new() };
        assert(r@.0 =~= Seq::<BlockView>::empty());
        assert(r@.1 =~= Seq::<ResourceView>::empty());
        assert(r@.2 =~= Seq::<ResourceView>::empty());
        r
    }
}

/// The reflection of a whole pass: the vertex stage's globals merged first,
/// then the fragment stage's.
pub open spec fn reflect_spec(vertex: Seq<GlobalDecl>, fragment: Seq<GlobalDecl>) -> ReflectionView {
    reflect_globals_spec(
        reflect_globals_spec((Seq::empty(), Seq::empty(), Seq::empty()), vertex),
        fragment,
    )
}

/// Reflect a compiled pass from its two stages' globals: merge the vertex
/// stage, then the fragment stage, into one reflection.
pub fn reflect_stages(vertex: &[GlobalDecl], fragment: &[GlobalDecl]) -> (r: SpirvReflection)
    ensures
        r@ == reflect_spec(vertex@, fragment@),
{
    let mut acc = SpirvReflection::new();
    reflect_stage(vertex, &mut acc);
    reflect_stage(fragment, &mut acc);
    acc
}

} // verus!
