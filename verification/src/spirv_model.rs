//! SPIR-V modules as plain values. A loaded module is every instruction in
//! module order, each operand kept as its kind and its encoded words, with
//! the sizes of the sections the library edits; from it come the views the
//! library decides on (opcode, result type, result id, operand values), and
//! back from plain instructions come the module's words.
//!
//! Parsing, and the encoding of each loaded operand, are rspirv's
//! (`rspirv::dr::load_words`, `Assemble`); this module carries the result over
//! into plain values.

use vstd::prelude::*;
use rspirv::binary::Assemble;
use rspirv::dr::load_words;
use rspirv::dr::Operand::{Decoration, IdRef, LiteralBit32, LiteralString, StorageClass};
use crate::spirv_model::OperandKind::{Bit32, Class, Deco, Id, Other, Text};

verus! {

/// SPIR-V opcode `OpTypePointer`.
pub const OP_TYPE_POINTER: u32 = 32;
/// SPIR-V opcode `OpVariable`.
pub const OP_VARIABLE: u32 = 59;
/// SPIR-V opcode `OpDecorate`.
pub const OP_DECORATE: u32 = 71;
/// SPIR-V decoration `Binding`.
pub const DECORATION_BINDING: u32 = 33;
/// SPIR-V decoration `DescriptorSet`.
pub const DECORATION_DESCRIPTOR_SET: u32 = 34;
/// SPIR-V storage class `Uniform`.
pub const STORAGE_UNIFORM: u32 = 2;
/// SPIR-V storage class `PushConstant`.
pub const STORAGE_PUSH_CONSTANT: u32 = 9;

/// One operand of an instruction, as far as the library reads operands.
#[derive(Debug, Clone, Copy, PartialEq, Eq, Structural)]
pub enum OperandVal {
    /// An `<id>` reference.
    IdRef(u32),
    /// A decoration, by its SPIR-V number.
    Decoration(u32),
    /// A 32-bit literal.
    LiteralBit32(u32),
    /// A storage class, by its SPIR-V number.
    StorageClass(u32),
    /// A literal string.
    Text,
    /// Any other kind of operand.
    Other,
}

/// One instruction: opcode, result type, result id and operands.
#[derive(Debug, Clone, PartialEq, Eq)]
pub struct SpirvInst {
    pub opcode: u32,
    pub result_type: Option<u32>,
    pub result_id: Option<u32>,
    pub operands: Vec<OperandVal>,
}

/// The content of a [`SpirvInst`].
pub type InstView = (u32, Option<u32>, Option<u32>, Seq<OperandVal>);

impl View for SpirvInst {
    type V = InstView;

    open spec fn view(&self) -> InstView {
        (self.opcode, self.result_type, self.result_id, self.operands@)
    }
}

/// The sections of a module the library reads.
#[derive(Debug, Clone, PartialEq, Eq)]
pub struct SpirvModel {
    /// All annotation instructions (`OpDecorate` and friends), in order.
    pub annotations: Vec<SpirvInst>,
    /// All types, constants and global variables, in order.
    pub globals: Vec<SpirvInst>,
}

/// The instructions of a list, by their content.
pub open spec fn insts_view(v: Seq<SpirvInst>) -> Seq<InstView> {
    v.map_values(|i: SpirvInst| i@)
}

/// What kind of operand a loaded operand is, as far as the library tells
/// kinds apart.
#[derive(Debug, Clone, Copy, PartialEq, Eq, Structural)]
pub enum OperandKind {
    /// An `<id>` reference.
    Id,
    /// A decoration.
    Deco,
    /// A 32-bit literal.
    Bit32,
    /// A storage class.
    Class,
    /// A literal string.
    Text,
    /// Any other kind.
    Other,
}

/// A loaded instruction: opcode, result type, result id, and each operand as
/// its kind and its encoded words.
pub struct PlainInst(pub u32, pub Option<u32>, pub Option<u32>, pub Vec<(OperandKind, Vec<u32>)>);

/// The content of an operand.
pub type OperandWords = (OperandKind, Seq<u32>);

/// The content of a [`PlainInst`].
pub type PlainView = (u32, Option<u32>, Option<u32>, Seq<OperandWords>);

/// The operands of an instruction, by their content.
pub open spec fn operands_view(v: Seq<(OperandKind, Vec<u32>)>) -> Seq<OperandWords> {
    v.map_values(|o: (OperandKind, Vec<u32>)| (o.0, o.1@))
}

impl View for PlainInst {
    type V = PlainView;

    open spec fn view(&self) -> PlainView {
        (self.0, self.1, self.2, operands_view(self.3@))
    }
}

/// The instructions of a list, by their content.
pub open spec fn plain_view(v: Seq<PlainInst>) -> Seq<PlainView> {
    v.map_values(|p: PlainInst| p@)
}

/// A loaded module: its header words (when it has a header), every
/// instruction in module order, and the section sizes `[instructions before
/// the functions, debug names, processed-module notes, annotations, types and
/// globals]` (the last four sections end where the functions begin).
pub struct PlainModule(pub Option<Vec<u32>>, pub Vec<PlainInst>, pub Vec<usize>);

/// The content of a [`PlainModule`].
pub type ModuleView = (Option<Seq<u32>>, Seq<PlainView>, Seq<usize>);

impl View for PlainModule {
    type V = ModuleView;

    open spec fn view(&self) -> ModuleView {
        (match self.0 { Some(h) => Some(h@), None => None }, plain_view(self.1@), self.2@)
    }
}

/// The section sizes fit the instructions, a header is five words, and every
/// `OpLoad` has a result type and a result id and every `OpImage` a result
/// id.
pub open spec fn layout_ok(m: ModuleView) -> bool {
    &&& m.2.len() == 5
    &&& m.2[1] + m.2[2] + m.2[3] + m.2[4] <= m.2[0] <= m.1.len()
    &&& m.0 matches Some(h) ==> h.len() == 5
    &&& forall|i: int| 0 <= i < m.1.len() ==> {
        let (op, rt, rid, _) = #[trigger] m.1[i];
        &&& (op == 61 ==> rt is Some && rid is Some)
        &&& (op == 100 ==> rid is Some)
    }
}

/// Where the debug names begin.
pub open spec fn names_start(m: ModuleView) -> int {
    m.2[0] - m.2[4] - m.2[3] - m.2[2] - m.2[1]
}

/// Where the debug names end.
pub open spec fn names_end(m: ModuleView) -> int {
    names_start(m) + m.2[1]
}

/// Where the annotations begin.
pub open spec fn annotations_start(m: ModuleView) -> int {
    names_end(m) + m.2[2]
}

/// Where the types and globals begin (and the annotations end).
pub open spec fn globals_start(m: ModuleView) -> int {
    annotations_start(m) + m.2[3]
}

/// Where the types and globals end (and the functions begin).
pub open spec fn globals_end(m: ModuleView) -> int {
    m.2[0] as int
}

/// The value an operand stands for.
pub open spec fn operand_val(o: OperandWords) -> OperandVal {
    if o.1.len() == 1 {
        match o.0 {
            OperandKind::Id => OperandVal::IdRef(o.1[0]),
            OperandKind::Deco => OperandVal::Decoration(o.1[0]),
            OperandKind::Bit32 => OperandVal::LiteralBit32(o.1[0]),
            OperandKind::Class => OperandVal::StorageClass(o.1[0]),
            OperandKind::Text => OperandVal::Text,
            OperandKind::Other => OperandVal::Other,
        }
    } else {
        match o.0 {
            OperandKind::Text => OperandVal::Text,
            _ => OperandVal::Other,
        }
    }
}

/// What the library reads of a loaded instruction.
pub open spec fn inst_of(p: PlainView) -> InstView {
    (p.0, p.1, p.2, p.3.map_values(|o: OperandWords| operand_val(o)))
}

/// What the library reads of loaded instructions.
pub open spec fn insts_of(s: Seq<PlainView>) -> Seq<InstView> {
    s.map_values(|p: PlainView| inst_of(p))
}

/// What rspirv's loader makes of `words`: the module, or the loader's error
/// message.
pub uninterp spec fn spirv_load_module(words: Seq<u32>) -> Result<ModuleView, Seq<char>>;

/// The annotations and the types / globals section that `words` load to, or
/// the loader's error message.
pub open spec fn spirv_load(words: Seq<u32>) -> Result<(Seq<InstView>, Seq<InstView>), Seq<char>> {
    match spirv_load_module(words) {
        Ok(m) => Ok((insts_of(m.1.subrange(annotations_start(m), globals_start(m))),
            insts_of(m.1.subrange(globals_start(m), globals_end(m))))),
        Err(e) => Err(e),
    }
}

/// Load SPIR-V words with `rspirv::dr::load_words`; a load error becomes its
/// message. Each instruction of the module (`all_inst_iter`, module order) is
/// kept with each operand's kind and its words as rspirv's `Assemble` encodes
/// it, the header as `Assemble` encodes it, and the section sizes: the
/// instructions before the functions (`global_inst_iter`), the debug names,
/// the processed-module notes, the annotations and the types / globals. The
/// contract says that the result is the loader's, named
/// [`spirv_load_module`], and states what the source shows of its shape:
/// `global_inst_iter` chains those four sections last and `all_inst_iter`
/// continues it with the functions; a header encodes to five words; and the
/// parser fails on an instruction missing an operand its grammar requires, so
/// a loaded `OpLoad` (grammar: result type, result id, pointer) has both and a
/// loaded `OpImage` (result type, result id, sampled image) has a result id.
#[verifier::external_body]
pub(crate) fn load_module(words: &[u32]) -> (r: Result<PlainModule, String>)
    ensures
        match r {
            Ok(m) => spirv_load_module(words@) == Ok::<ModuleView, Seq<char>>(m@) && layout_ok(m@),
            Err(e) => spirv_load_module(words@) == Err::<ModuleView, Seq<char>>(e@),
        },
{
    let m = load_words(words).map_err(|e| e.to_string())?;
    Ok(PlainModule(m.header.as_ref().map(|h| h.assemble()), m.all_inst_iter().map(|i| PlainInst(i.class.opcode as u32,
        i.result_type, i.result_id, i.operands.iter().map(|o| (match o { IdRef(_) => Id, Decoration(_) => Deco,
        LiteralBit32(_) => Bit32, StorageClass(_) => Class, LiteralString(_) => Text, _ => Other }, o.assemble()))
        .collect())).collect(), vec![m.global_inst_iter().count(), m.debug_names.len(), m.debug_module_processed.len(),
        m.annotations.len(), m.types_global_values.len()]))
}

/// The value of one loaded operand.
fn operand_val_exec(o: &(OperandKind, Vec<u32>)) -> (v: OperandVal)
    ensures
        v == operand_val((o.0, o.1@)),
{
    if o.1.len() == 1 {
        let w = o.1[0];
        match o.0 {
            OperandKind::Id => OperandVal::IdRef(w),
            OperandKind::Deco => OperandVal::Decoration(w),
            OperandKind::Bit32 => OperandVal::LiteralBit32(w),
            OperandKind::Class => OperandVal::StorageClass(w),
            OperandKind::Text => OperandVal::Text,
            OperandKind::Other => OperandVal::Other,
        }
    } else {
        match o.0 {
            OperandKind::Text => OperandVal::Text,
            _ => OperandVal::Other,
        }
    }
}

/// What the library reads of one loaded instruction.
pub(crate) fn inst_of_exec(p: &PlainInst) -> (s: SpirvInst)
    ensures
        s@ == inst_of(p@),
{
    let mut ops: Vec<OperandVal> = Vec::new();
    let mut k: usize = 0;
    while k < p.3.len()
        invariant
            k <= p.3@.len(),
            ops@ == operands_view(p.3@).take(k as int).map_values(|o: OperandWords| operand_val(o)),
        decreases p.3@.len() - k,
    {
        let v = operand_val_exec(&p.3[k]);
        ops.push(v);
        assert(operands_view(p.3@).take(k + 1).map_values(|o: OperandWords| operand_val(o))
            =~= operands_view(p.3@).take(k as int).map_values(|o: OperandWords| operand_val(o)).push(v));
        k = k + 1;
    }
    assert(operands_view(p.3@).take(p.3@.len() as int) =~= operands_view(p.3@));
    SpirvInst { opcode: p.0, result_type: p.1, result_id: p.2, operands: ops }
}

/// What the library reads of instructions `lo..hi` of a list.
pub(crate) fn insts_of_range(v: &Vec<PlainInst>, lo: usize, hi: usize) -> (r: Vec<SpirvInst>)
    requires
        lo <= hi <= v@.len(),
    ensures
        insts_view(r@) == insts_of(plain_view(v@).subrange(lo as int, hi as int)),
{
    let mut r: Vec<SpirvInst> = Vec::new();
    let mut k: usize = lo;
    while k < hi
        invariant
            lo <= k <= hi <= v@.len(),
            insts_view(r@) == insts_of(plain_view(v@).subrange(lo as int, k as int)),
        decreases hi - k,
    {
        let s = inst_of_exec(&v[k]);
        r.push(s);
        assert(insts_of(plain_view(v@).subrange(lo as int, k + 1))
            =~= insts_of(plain_view(v@).subrange(lo as int, k as int)).push(inst_of(v@[k as int]@)));
        assert(insts_view(r@) =~= insts_view(r@.drop_last()).push(s@));
        k = k + 1;
    }
    r
}

/// The annotations and globals of `words` as the library reads them, or the
/// loader's message.
pub(crate) fn load_spirv(words: &[u32]) -> (r: Result<SpirvModel, String>)
    ensures
        match r {
            Ok(m) => spirv_load(words@) == Ok::<(Seq<InstView>, Seq<InstView>), Seq<char>>(
                (insts_view(m.annotations@), insts_view(m.globals@))),
            Err(e) => spirv_load(words@) == Err::<(Seq<InstView>, Seq<InstView>), Seq<char>>(e@),
        },
{
    match load_module(words) {
        Err(e) => Err(e),
        Ok(m) => {
            let a0 = m.2[0] - m.2[4] - m.2[3];
            let g0 = m.2[0] - m.2[4];
            let annotations = insts_of_range(&m.1, a0, g0);
            let globals = insts_of_range(&m.1, g0, m.2[0]);
            Ok(SpirvModel { annotations, globals })
        },
    }
}

// ---------------------------------------------------------------------------
// Encoding

/// The words of a list of operands, one after another.
pub open spec fn operand_words(ops: Seq<OperandWords>) -> Seq<u32>
    decreases ops.len(),
{
    if ops.len() == 0 {
        Seq::empty()
    } else {
        operand_words(ops.drop_last()) + ops.last().1
    }
}

/// An optional id as words.
pub open spec fn opt_word(o: Option<u32>) -> Seq<u32> {
    match o {
        Some(x) => seq![x],
        None => Seq::empty(),
    }
}

/// The words of an instruction after its first: result type, result id,
/// operands.
pub open spec fn inst_body(p: PlainView) -> Seq<u32> {
    opt_word(p.1) + opt_word(p.2) + operand_words(p.3)
}

/// The encoding of an instruction, as rspirv's `Assemble` writes it: the word
/// count in the high half of the first word and the opcode in its low bits,
/// then the result type, the result id and the operands' words.
pub open spec fn encode_inst(p: PlainView) -> Seq<u32> {
    seq![((((inst_body(p).len() + 1) % 0x1_0000_0000) as u32) << 16u32) | p.0] + inst_body(p)
}

/// The encodings of instructions, one after another.
pub open spec fn encode_insts(s: Seq<PlainView>) -> Seq<u32>
    decreases s.len(),
{
    if s.len() == 0 {
        Seq::empty()
    } else {
        encode_insts(s.drop_last()) + encode_inst(s.last())
    }
}

/// The words of a module: its header's words, then each instruction's.
pub open spec fn module_words(header: Option<Seq<u32>>, s: Seq<PlainView>) -> Seq<u32> {
    opt_words(header) + encode_insts(s)
}

/// Optional words.
pub open spec fn opt_words(o: Option<Seq<u32>>) -> Seq<u32> {
    match o {
        Some(w) => w,
        None => Seq::empty(),
    }
}

/// Encoding one list after another is encoding their concatenation.
pub proof fn lemma_encode_insts_append(a: Seq<PlainView>, b: Seq<PlainView>)
    ensures
        encode_insts(a + b) == encode_insts(a) + encode_insts(b),
    decreases b.len(),
{
    if b.len() == 0 {
        assert(a + b =~= a);
    } else {
        lemma_encode_insts_append(a, b.drop_last());
        assert((a + b).drop_last() =~= a + b.drop_last());
    }
}

/// Append `w` to `out`.
pub(crate) fn append_words(out: &mut Vec<u32>, w: &Vec<u32>)
    ensures
        final(out)@ == old(out)@ + w@,
{
    let mut k: usize = 0;
    let ghost o = out@;
    while k < w.len()
        invariant
            k <= w@.len(),
            out@ == o + w@.take(k as int),
        decreases w@.len() - k,
    {
        out.push(w[k]);
        assert(w@.take(k + 1) =~= w@.take(k as int).push(w@[k as int]));
        k = k + 1;
    }
    assert(w@.take(w@.len() as int) =~= w@);
}

/// Append the encoding of instruction `(opcode, result_type, result_id,
/// ops)` to `out`.
pub(crate) fn encode_parts(out: &mut Vec<u32>, opcode: u32, result_type: Option<u32>, result_id: Option<u32>,
    ops: &Vec<(OperandKind, Vec<u32>)>)
    ensures
        final(out)@ == old(out)@ + encode_inst((opcode, result_type, result_id, operands_view(ops@))),
{
    let ghost p: PlainView = (opcode, result_type, result_id, operands_view(ops@));
    let mut body: Vec<u32> = Vec::new();
    match result_type {
        Some(t) => { body.push(t); },
        None => {},
    }
    match result_id {
        Some(r) => { body.push(r); },
        None => {},
    }
    assert(body@ =~= opt_word(result_type) + opt_word(result_id));
    let mut k: usize = 0;
    while k < ops.len()
        invariant
            k <= ops@.len(),
            body@ == opt_word(result_type) + opt_word(result_id) + operand_words(operands_view(ops@).take(k as int)),
        decreases ops@.len() - k,
    {
        let ghost before = body@;
        append_words(&mut body, &ops[k].1);
        assert(operands_view(ops@).take(k + 1).drop_last() =~= operands_view(ops@).take(k as int));
        k = k + 1;
    }
    assert(operands_view(ops@).take(ops@.len() as int) =~= operands_view(ops@));
    let r = (body.len() as u64) % 0x1_0000_0000;
    proof { vstd::arithmetic::div_mod::lemma_add_mod_noop(body@.len() as int, 1, 0x1_0000_0000); }
    let n = ((r + 1) % 0x1_0000_0000) as u32;
    let first: u32 = (n << 16u32) | opcode;
    out.push(first);
    append_words(out, &body);
    assert(encode_inst(p) =~= seq![first] + body@);
}

/// Append the encoding of `p` to `out`.
pub(crate) fn encode_plain(out: &mut Vec<u32>, p: &PlainInst)
    ensures
        final(out)@ == old(out)@ + encode_inst(p@),
{
    encode_parts(out, p.0, p.1, p.2, &p.3);
}

/// The words of a module with these header words and instructions.
pub(crate) fn assemble(header: &Option<Vec<u32>>, insts: &Vec<PlainInst>) -> (w: Vec<u32>)
    ensures
        w@ == module_words(match header { Some(h) => Some(h@), None => None }, plain_view(insts@)),
{
    let mut out: Vec<u32> = Vec::new();
    match header {
        Some(h) => append_words(&mut out, h),
        None => {},
    }
    let ghost h0 = out@;
    let mut k: usize = 0;
    while k < insts.len()
        invariant
            k <= insts@.len(),
            out@ == h0 + encode_insts(plain_view(insts@).take(k as int)),
        decreases insts@.len() - k,
    {
        encode_plain(&mut out, &insts[k]);
        assert(plain_view(insts@).take(k + 1).drop_last() =~= plain_view(insts@).take(k as int));
        k = k + 1;
    }
    assert(plain_view(insts@).take(insts@.len() as int) =~= plain_view(insts@));
    out
}

/// A copy of `w`.
pub(crate) fn copy_words(w: &Vec<u32>) -> (c: Vec<u32>)
    ensures
        c@ == w@,
{
    let mut c: Vec<u32> = Vec::new();
    append_words(&mut c, w);
    c
}

/// The operands of `p` with the first replaced by a one-word operand.
pub(crate) fn ops_with_first(p: &PlainInst, kind: OperandKind, w: u32) -> (ops: Vec<(OperandKind, Vec<u32>)>)
    requires
        p.3@.len() > 0,
    ensures
        operands_view(ops@) == p@.3.update(0, (kind, seq![w])),
{
    let mut ops: Vec<(OperandKind, Vec<u32>)> = Vec::new();
    ops.push((kind, vec![w]));
    assert(operands_view(ops@)[0] =~~= (kind, seq![w]));
    let mut k: usize = 1;
    while k < p.3.len()
        invariant
            1 <= k <= p.3@.len(),
            ops@.len() == k,
            operands_view(ops@)[0] == (kind, seq![w]),
            forall|j: int| 1 <= j < k ==> #[trigger] operands_view(ops@)[j] == operands_view(p.3@)[j],
        decreases p.3@.len() - k,
    {
        let c = copy_words(&p.3[k].1);
        let ghost old_ops = ops@;
        ops.push((p.3[k].0, c));
        assert(operands_view(ops@) =~= operands_view(old_ops).push(operands_view(p.3@)[k as int]));
        k = k + 1;
    }
    assert(operands_view(ops@) =~= p@.3.update(0, (kind, seq![w])));
    ops
}

} // verus!
