//! The combined-sampler split of a whole SPIR-V word stream: the module is
//! loaded, read as the split reads it, split (see
//! [`crate::split_module::split_module`]), and the edits are applied to the
//! loaded instructions, which are then encoded again.

use vstd::prelude::*;
use crate::spirv_model::{SpirvInst, InstView, insts_view, OperandVal, OperandKind, PlainInst, PlainModule, PlainView,
    ModuleView, OperandWords, plain_view, operands_view, inst_of, insts_of, inst_of_exec, insts_of_range, layout_ok,
    load_module, spirv_load_module, names_start, names_end, globals_start, globals_end, encode_inst, encode_insts,
    encode_parts, encode_plain, append_words, copy_words, ops_with_first, module_words, opt_words};
use crate::split::{SplitError, combined_scan, sampled_table, component_table};
use crate::split_module::{SpirvModule, SplitEdits, SplitOutcome, GlobalItem, GlobalView, NewName, globals_view,
    split_module, split_matches, OP_NAME};
use crate::split_rewrite::{BlockItem, ItemView, items_view, blocks_view, blocks_results_present, results_present};

verus! {

/// SPIR-V opcode `OpLabel`.
pub const OP_LABEL: u32 = 248;
/// SPIR-V opcode `OpFunctionEnd`.
pub const OP_FUNCTION_END: u32 = 56;

// ---------------------------------------------------------------------------
// Literal strings

/// Byte `k` (little-endian) of word `x`.
pub open spec fn byte_of(x: u32, k: int) -> u8 {
    (if k == 0 {
        x % 256
    } else if k == 1 {
        (x / 256) % 256
    } else if k == 2 {
        (x / 65536) % 256
    } else {
        (x / 16777216) % 256
    }) as u8
}

/// The bytes of words, each word little-endian.
pub open spec fn word_bytes(w: Seq<u32>) -> Seq<u8> {
    Seq::new((4 * w.len()) as nat, |i: int| byte_of(w[i / 4], i % 4))
}

/// The bytes before the first zero byte.
pub open spec fn until_nul(b: Seq<u8>) -> Seq<u8>
    decreases b.len(),
{
    if b.len() == 0 || b[0] == 0 {
        Seq::empty()
    } else {
        seq![b[0]] + until_nul(b.drop_first())
    }
}

/// Byte `i` of `b`, or zero past its end.
pub open spec fn byte_or_zero(b: Seq<u8>, i: int) -> u32 {
    if 0 <= i < b.len() { b[i] as u32 } else { 0 }
}

/// The little-endian word of bytes `i..i + 4` of `b` (zero past its end).
pub open spec fn le_word(b: Seq<u8>, i: int) -> u32 {
    (byte_or_zero(b, i) + byte_or_zero(b, i + 1) * 256 + byte_or_zero(b, i + 2) * 65536
        + byte_or_zero(b, i + 3) * 16777216) as u32
}

/// A literal string's words, as rspirv's `Assemble` writes them: the bytes
/// four to a word, little-endian, then a last word holding the rest padded
/// with zeros (a whole zero word when nothing is left).
pub open spec fn string_words(b: Seq<u8>) -> Seq<u32> {
    Seq::new(b.len() / 4 + 1, |j: int| le_word(b, 4 * j))
}

/// The bytes of [`crate::split_module::SAMPLER_NAME_SUFFIX`], `"Smp"`.
pub open spec fn suffix_bytes() -> Seq<u8> {
    seq![83u8, 109u8, 112u8]
}

/// The words of the string encoded in `w` followed by the sampler suffix.
pub open spec fn suffixed_name(w: Seq<u32>) -> Seq<u32> {
    string_words(until_nul(word_bytes(w)) + suffix_bytes())
}

proof fn lemma_until_nul(b: Seq<u8>, i: int)
    requires
        0 <= i <= b.len(),
        forall|j: int| 0 <= j < i ==> b[j] != 0,
        i == b.len() || b[i] == 0,
    ensures
        until_nul(b) == b.take(i),
    decreases i,
{
    if i == 0 {
        assert(b.take(0) =~= Seq::<u8>::empty());
    } else {
        lemma_until_nul(b.drop_first(), i - 1);
        assert(b.take(i) =~= seq![b[0]] + b.drop_first().take(i - 1));
    }
}

fn byte_of_exec(x: u32, k: usize) -> (r: u8)
    requires
        k < 4,
    ensures
        r == byte_of(x, k as int),
{
    (if k == 0 {
        x % 256
    } else if k == 1 {
        (x / 256) % 256
    } else if k == 2 {
        (x / 65536) % 256
    } else {
        (x / 16777216) % 256
    }) as u8
}

/// The bytes of a literal string's words, up to its terminating zero.
fn name_bytes(w: &Vec<u32>) -> (b: Vec<u8>)
    ensures
        b@ == until_nul(word_bytes(w@)),
{
    let ghost wb = word_bytes(w@);
    let mut b: Vec<u8> = Vec::new();
    let mut j: usize = 0;
    while j < w.len()
        invariant
            j <= w@.len(),
            wb == word_bytes(w@),
            b@ == wb.take(4 * j),
            forall|i: int| 0 <= i < 4 * j ==> wb[i] != 0,
        decreases w@.len() - j,
    {
        let x = w[j];
        let mut k: usize = 0;
        while k < 4
            invariant
                j < w@.len(),
                k <= 4,
                x == w@[j as int],
                wb == word_bytes(w@),
                b@ == wb.take(4 * j + k),
                forall|i: int| 0 <= i < 4 * j + k ==> wb[i] != 0,
            decreases 4 - k,
        {
            let y = byte_of_exec(x, k);
            assert(wb[4 * j + k] == y) by {
                assert((4 * j + k) / 4 == j as int);
                assert((4 * j + k) % 4 == k as int);
            }
            if y == 0 {
                proof { lemma_until_nul(wb, 4 * j + k); }
                return b;
            }
            b.push(y);
            assert(wb.take(4 * j + k + 1) =~= wb.take(4 * j + k).push(y));
            k = k + 1;
        }
        j = j + 1;
    }
    proof { lemma_until_nul(wb, wb.len() as int); }
    assert(wb.take(wb.len() as int) =~= wb);
    b
}

fn byte_or_zero_exec(b: &Vec<u8>, i: usize, d: usize) -> (r: u32)
    requires
        d < 4,
    ensures
        r == byte_or_zero(b@, i + d),
{
    if i < b.len() && d < b.len() - i {
        b[i + d] as u32
    } else {
        0
    }
}

/// The words of a literal string with these bytes.
fn string_words_exec(b: &Vec<u8>) -> (w: Vec<u32>)
    ensures
        w@ == string_words(b@),
{
    let n = b.len() / 4 + 1;
    let mut w: Vec<u32> = Vec::new();
    let mut j: usize = 0;
    while j < n
        invariant
            n == b@.len() / 4 + 1,
            b@.len() <= usize::MAX,
            j <= n,
            w@.len() == j,
            forall|k: int| 0 <= k < j ==> #[trigger] w@[k] == le_word(b@, 4 * k),
        decreases n - j,
    {
        assert(4 * j <= b@.len()) by (nonlinear_arith)
            requires j < b@.len() / 4 + 1;
        let i = 4 * j;
        let b0 = byte_or_zero_exec(b, i, 0);
        let b1 = byte_or_zero_exec(b, i, 1);
        let b2 = byte_or_zero_exec(b, i, 2);
        let b3 = byte_or_zero_exec(b, i, 3);
        let v = b0 + b1 * 256 + b2 * 65536 + b3 * 16777216;
        w.push(v);
        j = j + 1;
    }
    assert(w@ =~= string_words(b@));
    w
}

/// The words of the string in `w` followed by the sampler suffix.
fn suffixed_name_exec(w: &Vec<u32>) -> (r: Vec<u32>)
    ensures
        r@ == suffixed_name(w@),
{
    let mut b = name_bytes(w);
    b.push(83u8);
    b.push(109u8);
    b.push(112u8);
    assert(b@ =~= until_nul(word_bytes(w@)) + suffix_bytes());
    string_words_exec(&b)
}

// ---------------------------------------------------------------------------
// The module as the split reads it

/// The finished blocks and any block being read.
pub open spec fn close(done: Seq<Seq<PlainView>>, cur: Option<Seq<PlainView>>) -> Seq<Seq<PlainView>> {
    match cur {
        Some(c) => done.push(c),
        None => done,
    }
}

/// Reading a function section: each `OpLabel` starts a block, which takes
/// the instructions after it up to the next `OpLabel` or `OpFunctionEnd`.
pub open spec fn blocks_scan(fp: Seq<PlainView>) -> (Seq<Seq<PlainView>>, Option<Seq<PlainView>>)
    decreases fp.len(),
{
    if fp.len() == 0 {
        (Seq::empty(), None)
    } else {
        let (done, cur) = blocks_scan(fp.drop_last());
        let x = fp.last();
        if x.0 == OP_LABEL {
            (close(done, cur), Some(Seq::empty()))
        } else if x.0 == OP_FUNCTION_END {
            (close(done, cur), None)
        } else {
            match cur {
                Some(c) => (done, Some(c.push(x))),
                None => (done, None),
            }
        }
    }
}

/// The blocks of a function section, each without its label.
pub open spec fn blocks_of(fp: Seq<PlainView>) -> Seq<Seq<PlainView>> {
    close(blocks_scan(fp).0, blocks_scan(fp).1)
}

/// The functions of a module.
pub open spec fn function_part(m: ModuleView) -> Seq<PlainView> {
    m.1.subrange(globals_end(m), m.1.len() as int)
}

/// The id bound in a header.
pub open spec fn header_bound(h: Option<Seq<u32>>) -> Option<u32> {
    match h {
        Some(w) => Some(w[3]),
        None => None,
    }
}

/// `p` gives each instruction of `c` its index among `all`.
pub open spec fn slots_ok(p: Seq<usize>, all: Seq<PlainView>, c: Seq<PlainView>) -> bool {
    &&& p.len() == c.len()
    &&& forall|i: int| 0 <= i < c.len() ==> (p[i] as int) < all.len() && all[p[i] as int] == #[trigger] c[i]
}

/// Each block instruction's index among `all`.
pub open spec fn positions_ok(pos: Seq<Seq<usize>>, all: Seq<PlainView>, bl: Seq<Seq<PlainView>>) -> bool {
    &&& pos.len() == bl.len()
    &&& forall|b: int| 0 <= b < bl.len() ==> #[trigger] slots_ok(pos[b], all, bl[b])
}

proof fn lemma_slots_push(p: Seq<usize>, all: Seq<PlainView>, c: Seq<PlainView>, k: usize)
    requires
        slots_ok(p, all, c),
        k < all.len(),
    ensures
        slots_ok(p.push(k), all, c.push(all[k as int])),
{
    let p2 = p.push(k);
    let c2 = c.push(all[k as int]);
    assert(p2.len() == c2.len());
    assert forall|i: int| 0 <= i < c2.len() implies (p2[i] as int) < all.len() by {
        if i < c.len() {
            assert(p2[i] == p[i]);
            assert(c2[i] == c[i]);
        }
    }
    assert forall|i: int| 0 <= i < c2.len() implies all[p2[i] as int] == #[trigger] c2[i] by {
        if i < c.len() {
            assert(p2[i] == p[i]);
            assert(c2[i] == c[i]);
        }
    }
    assert forall|i: int| 0 <= i < c2.len() implies (p2[i] as int) < all.len() && all[p2[i] as int] == #[trigger] c2[i] by {
    }
}

/// The index lists, by their content.
pub open spec fn pos_view(p: Seq<Vec<usize>>) -> Seq<Seq<usize>> {
    p.map_values(|v: Vec<usize>| v@)
}

/// The blocks as the split reads them.
pub open spec fn read_blocks(bl: Seq<Seq<PlainView>>) -> Seq<Seq<InstView>> {
    bl.map_values(|b: Seq<PlainView>| insts_of(b))
}

/// Read module `m` as the split reads it, with each block instruction's index.
fn split_view(m: &PlainModule) -> (r: (SpirvModule, Vec<Vec<usize>>))
    requires
        layout_ok(m@),
    ensures
        r.0.bound == header_bound(m@.0),
        insts_view(r.0.all@) == insts_of(m@.1),
        insts_view(r.0.names@) == insts_of(m@.1.subrange(names_start(m@), names_end(m@))),
        insts_view(r.0.annotations@) == insts_of(m@.1.subrange(crate::spirv_model::annotations_start(m@), globals_start(m@))),
        insts_view(r.0.globals@) == insts_of(m@.1.subrange(globals_start(m@), globals_end(m@))),
        blocks_view(r.0.blocks@) == read_blocks(blocks_of(function_part(m@))),
        blocks_results_present(blocks_view(r.0.blocks@)),
        positions_ok(pos_view(r.1@), m@.1, blocks_of(function_part(m@))),
{
    let ghost all = m@.1;
    let n = m.1.len();
    let g1 = m.2[0];
    let g0 = m.2[0] - m.2[4];
    let a0 = g0 - m.2[3];
    let n1 = a0 - m.2[2];
    let n0 = n1 - m.2[1];
    let bound = match &m.0 {
        Some(h) => Some(h[3]),
        None => None,
    };
    let ghost fp = function_part(m@);
    let mut done_b: Vec<Vec<SpirvInst>> = Vec::new();
    let mut done_p: Vec<Vec<usize>> = Vec::new();
    let mut cur_b: Vec<SpirvInst> = Vec::new();
    let mut cur_p: Vec<usize> = Vec::new();
    let mut has_cur = false;
    let mut k: usize = g1;
    assert(fp.take(0) =~= Seq::<PlainView>::empty());
    while k < n
        invariant
            g1 <= k <= n == m.1@.len(),
            all == m@.1,
            all.len() == n,
            fp == all.subrange(g1 as int, n as int),
            blocks_view(done_b@) == read_blocks(blocks_scan(fp.take(k - g1)).0),
            positions_ok(pos_view(done_p@), all, blocks_scan(fp.take(k - g1)).0),
            has_cur == blocks_scan(fp.take(k - g1)).1 is Some,
            has_cur ==> insts_view(cur_b@) == insts_of(blocks_scan(fp.take(k - g1)).1->Some_0)
                && slots_ok(cur_p@, all, blocks_scan(fp.take(k - g1)).1->Some_0),
            !has_cur ==> cur_b@.len() == 0 && cur_p@.len() == 0,
        decreases n - k,
    {
        let ghost pre = fp.take(k - g1);
        let ghost st = blocks_scan(pre);
        assert(fp.take(k + 1 - g1).drop_last() =~= pre);
        assert(fp.take(k + 1 - g1).last() == all[k as int]);
        let op = m.1[k].0;
        if op == OP_LABEL || op == OP_FUNCTION_END {
            if has_cur {
                let ghost c = st.1->Some_0;
                let ghost db = done_b@;
                let ghost dp = done_p@;
                let ghost cp = cur_p@;
                assert(slots_ok(cp, all, c));
                done_b.push(cur_b);
                done_p.push(cur_p);
                cur_b = Vec::new();
                cur_p = Vec::new();
                proof {
                    assert(blocks_view(done_b@) =~= blocks_view(db).push(insts_of(c)));
                    assert(read_blocks(st.0.push(c)) =~= read_blocks(st.0).push(insts_of(c)));
                    let bl = st.0.push(c);
                    assert(pos_view(done_p@) =~= pos_view(dp).push(done_p@.last()@));
                    assert forall|b: int| 0 <= b < bl.len() implies #[trigger] slots_ok(pos_view(done_p@)[b], all, bl[b]) by {
                        if b < st.0.len() {
                            assert(pos_view(done_p@)[b] == pos_view(dp)[b]);
                            assert(slots_ok(pos_view(dp)[b], all, st.0[b]));
                        } else {
                            assert(pos_view(done_p@)[b] == cp);
                            assert(bl[b] == c);
                        }
                    }
                }
            }
            has_cur = op == OP_LABEL;
            proof {
                if has_cur {
                    assert(insts_view(cur_b@) =~= insts_of(Seq::<PlainView>::empty()));
                }
            }
        } else if has_cur {
            let ghost c = st.1->Some_0;
            let s = inst_of_exec(&m.1[k]);
            let ghost cb = cur_b@;
            let ghost cp = cur_p@;
            cur_b.push(s);
            cur_p.push(k);
            proof {
                assert(insts_view(cur_b@) =~= insts_view(cb).push(s@));
                assert(insts_of(c.push(all[k as int])) =~= insts_of(c).push(inst_of(all[k as int])));
                lemma_slots_push(cp, all, c, k);
                assert(cur_p@ =~= cp.push(k));
            }
        }
        k = k + 1;
    }
    assert(fp.take(n - g1) =~= fp);
    let ghost st = blocks_scan(fp);
    if has_cur {
        let ghost c = st.1->Some_0;
        let ghost db = done_b@;
        let ghost dp = done_p@;
        let ghost cp = cur_p@;
        assert(slots_ok(cp, all, c));
        done_b.push(cur_b);
        done_p.push(cur_p);
        proof {
            assert(blocks_view(done_b@) =~= blocks_view(db).push(insts_of(c)));
            assert(read_blocks(st.0.push(c)) =~= read_blocks(st.0).push(insts_of(c)));
            let bl = st.0.push(c);
            assert(pos_view(done_p@) =~= pos_view(dp).push(done_p@.last()@));
            assert forall|b: int| 0 <= b < bl.len() implies #[trigger] slots_ok(pos_view(done_p@)[b], all, bl[b]) by {
                if b < st.0.len() {
                    assert(pos_view(done_p@)[b] == pos_view(dp)[b]);
                    assert(slots_ok(pos_view(dp)[b], all, st.0[b]));
                } else {
                    assert(pos_view(done_p@)[b] == cp);
                    assert(bl[b] == c);
                }
            }
        }
    }
    let ghost bl = blocks_of(fp);
    assert(blocks_view(done_b@) == read_blocks(bl));
    assert(positions_ok(pos_view(done_p@), all, bl));
    proof {
        assert forall|b: int| 0 <= b < blocks_view(done_b@).len() implies results_present(#[trigger] blocks_view(done_b@)[b]) by {
            let v = blocks_view(done_b@)[b];
            assert(v == insts_of(bl[b]));
            assert forall|i: int| 0 <= i < v.len() implies {
                let (op, rt, rid, _) = #[trigger] v[i];
                &&& (op == crate::split_rewrite::OP_LOAD ==> rt is Some && rid is Some)
                &&& (op == crate::split_rewrite::OP_IMAGE ==> rid is Some)
            } by {
                assert(bl[b].len() == v.len());
                assert(slots_ok(pos_view(done_p@)[b], all, bl[b]));
                let q = pos_view(done_p@)[b][i] as int;
                assert(all[q] == bl[b][i]);
                assert(v[i] == inst_of(bl[b][i]));
            }
        }
    }
    let all_insts = insts_of_range(&m.1, 0, n);
    assert(all.subrange(0, n as int) =~= all);
    let names = insts_of_range(&m.1, n0, n1);
    let annotations = insts_of_range(&m.1, a0, g0);
    let globals = insts_of_range(&m.1, g0, g1);
    (SpirvModule { bound, all: all_insts, names, annotations, globals, blocks: done_b }, done_p)
}

// ---------------------------------------------------------------------------
// Applying the edits

/// An instruction with no opcode, result or operand (what an index past the
/// end stands for).
pub open spec fn empty_inst() -> PlainView {
    (0, None, None, Seq::empty())
}

/// Instruction `i` of `s`, or [`empty_inst`] past its end.
pub open spec fn at_or_empty(s: Seq<PlainView>, i: int) -> PlainView {
    if 0 <= i < s.len() { s[i] } else { empty_inst() }
}

/// `p` with result type `t`.
pub open spec fn with_type(p: PlainView, t: u32) -> PlainView {
    (p.0, Some(t), p.2, p.3)
}

/// `p` with its first operand referring to `id`.
pub open spec fn repointed(p: PlainView, id: u32) -> PlainView {
    if p.3.len() > 0 { (p.0, p.1, p.2, p.3.update(0, (OperandKind::Id, seq![id]))) } else { p }
}

/// The variant of `p` with result type `ty` and first operand `rp`, where
/// given.
pub open spec fn variant(p: PlainView, ty: Option<u32>, rp: Option<u32>) -> PlainView {
    let q = match ty { Some(t) => with_type(p, t), None => p };
    match rp { Some(id) => repointed(q, id), None => q }
}

/// The operand words of an operand value the library makes.
pub open spec fn operand_of(o: OperandVal) -> OperandWords {
    match o {
        OperandVal::IdRef(x) => (OperandKind::Id, seq![x]),
        OperandVal::Decoration(d) => (OperandKind::Deco, seq![d]),
        OperandVal::LiteralBit32(x) => (OperandKind::Bit32, seq![x]),
        OperandVal::StorageClass(c) => (OperandKind::Class, seq![c]),
        OperandVal::Text => (OperandKind::Text, Seq::empty()),
        OperandVal::Other => (OperandKind::Other, Seq::empty()),
    }
}

/// An instruction the library makes, as a plain instruction.
pub open spec fn plain_of(v: InstView) -> PlainView {
    (v.0, v.1, v.2, v.3.map_values(|o: OperandVal| operand_of(o)))
}

/// A global item of the split, from the module's globals `g`.
pub open spec fn global_out(g: Seq<PlainView>, it: GlobalView) -> PlainView {
    match it {
        GlobalView::Keep(i) => at_or_empty(g, i),
        GlobalView::Retyped(i, t) => with_type(at_or_empty(g, i), t),
        GlobalView::New(v) => plain_of(v),
    }
}

/// Item `k` of the new global section.
pub open spec fn ordered_global(g: Seq<PlainView>, items: Seq<GlobalView>, k: usize) -> PlainView {
    if k < items.len() { global_out(g, items[k as int]) } else { empty_inst() }
}

/// A rewritten block item, from the block's instructions `blk`.
pub open spec fn item_out(blk: Seq<PlainView>, it: ItemView) -> PlainView {
    match it {
        ItemView::Keep(i) => at_or_empty(blk, i),
        ItemView::Retyped(i, t) => with_type(at_or_empty(blk, i), t),
        ItemView::Repointed(i, id) => repointed(at_or_empty(blk, i), id),
        ItemView::New(v) => plain_of(v),
    }
}

/// The new instructions of block `b`.
pub open spec fn block_out(ob: Seq<Seq<PlainView>>, nb: Seq<Seq<ItemView>>, b: nat) -> Seq<PlainView> {
    if b < nb.len() {
        let blk = if b < ob.len() { ob[b as int] } else { Seq::empty() };
        nb[b as int].map_values(|it: ItemView| item_out(blk, it))
    } else {
        Seq::empty()
    }
}

/// Rebuilding a function section: every instruction outside blocks stays;
/// after the `b`-th label come block `b`'s new instructions in place of its
/// old ones. Also whether a block is being read, and how many labels passed.
pub open spec fn rebuild_scan(fp: Seq<PlainView>, ob: Seq<Seq<PlainView>>, nb: Seq<Seq<ItemView>>) -> (Seq<PlainView>, bool, nat)
    decreases fp.len(),
{
    if fp.len() == 0 {
        (Seq::empty(), false, 0)
    } else {
        let (o, inb, b) = rebuild_scan(fp.drop_last(), ob, nb);
        let x = fp.last();
        if x.0 == OP_LABEL {
            (o.push(x) + block_out(ob, nb, b), true, b + 1)
        } else if x.0 == OP_FUNCTION_END {
            (o.push(x), false, b)
        } else if inb {
            (o, true, b)
        } else {
            (o.push(x), false, b)
        }
    }
}

/// The words of a name instruction's string operand.
pub open spec fn text_words(p: PlainView) -> Seq<u32> {
    if p.3.len() >= 2 { p.3[1].1 } else { Seq::empty() }
}

/// `OpName %target "<name>Smp"`, the name taken from name instruction `from`.
pub open spec fn name_out(names: Seq<PlainView>, n: NewName) -> PlainView {
    (OP_NAME, None, None, seq![(OperandKind::Id, seq![n.target]),
        (OperandKind::Text, suffixed_name(text_words(at_or_empty(names, n.from as int))))])
}

/// The header with its id bound replaced, when there are both.
pub open spec fn split_header(h: Option<Seq<u32>>, bound: Option<u32>) -> Option<Seq<u32>> {
    match (h, bound) {
        (Some(w), Some(b)) => Some(w.update(3, b)),
        _ => h,
    }
}

/// Module `m`'s instructions after edits `e`: the new names after the debug
/// names, the new annotations after the annotations, the globals in the new
/// order, and each block rebuilt.
pub open spec fn split_applied(m: ModuleView, e: SplitEdits) -> Seq<PlainView> {
    let all = m.1;
    let names = all.subrange(names_start(m), names_end(m));
    let g = all.subrange(globals_start(m), globals_end(m));
    let fp = function_part(m);
    all.subrange(0, names_end(m))
        + e.names@.map_values(|n: NewName| name_out(names, n))
        + all.subrange(names_end(m), globals_start(m))
        + insts_view(e.annotations@).map_values(|v: InstView| plain_of(v))
        + e.order@.map_values(|k: usize| ordered_global(g, globals_view(e.globals@), k))
        + rebuild_scan(fp, blocks_of(fp), e.blocks@.map_values(|b: Vec<BlockItem>| items_view(b@))).0
}

/// The operands of an instruction the library makes.
fn plain_ops(s: &SpirvInst) -> (ops: Vec<(OperandKind, Vec<u32>)>)
    ensures
        operands_view(ops@) == s@.3.map_values(|o: OperandVal| operand_of(o)),
{
    let mut ops: Vec<(OperandKind, Vec<u32>)> = Vec::new();
    let mut k: usize = 0;
    while k < s.operands.len()
        invariant
            k <= s.operands@.len(),
            operands_view(ops@) == s.operands@.take(k as int).map_values(|o: OperandVal| operand_of(o)),
        decreases s.operands@.len() - k,
    {
        let o = match s.operands[k] {
            OperandVal::IdRef(x) => (OperandKind::Id, vec![x]),
            OperandVal::Decoration(d) => (OperandKind::Deco, vec![d]),
            OperandVal::LiteralBit32(x) => (OperandKind::Bit32, vec![x]),
            OperandVal::StorageClass(c) => (OperandKind::Class, vec![c]),
            OperandVal::Text => (OperandKind::Text, Vec::new()),
            OperandVal::Other => (OperandKind::Other, Vec::new()),
        };
        let ghost before = ops@;
        ops.push(o);
        proof {
            assert((o.0, o.1@) =~~= operand_of(s.operands@[k as int]));
            assert(operands_view(ops@) =~= operands_view(before).push((o.0, o.1@)));
            assert(s.operands@.take(k + 1).map_values(|o: OperandVal| operand_of(o))
                =~= s.operands@.take(k as int).map_values(|o: OperandVal| operand_of(o)).push(operand_of(s.operands@[k as int])));
        }
        k = k + 1;
    }
    assert(s.operands@.take(s.operands@.len() as int) =~= s.operands@);
    ops
}

/// Append the encoding of an instruction the library makes.
fn encode_new(out: &mut Vec<u32>, s: &SpirvInst)
    ensures
        final(out)@ == old(out)@ + encode_inst(plain_of(s@)),
{
    let ops = plain_ops(s);
    encode_parts(out, s.opcode, s.result_type, s.result_id, &ops);
}

/// Append the encoding of the variant of `x` (or of [`empty_inst`]).
fn encode_variant(out: &mut Vec<u32>, x: Option<&PlainInst>, ty: Option<u32>, rp: Option<u32>)
    ensures
        final(out)@ == old(out)@ + encode_inst(variant(match x { Some(p) => p@, None => empty_inst() }, ty, rp)),
{
    match x {
        None => {
            let e: Vec<(OperandKind, Vec<u32>)> = Vec::new();
            assert(operands_view(e@) =~= Seq::<OperandWords>::empty());
            encode_parts(out, 0, ty, None, &e);
        },
        Some(p) => {
            let rt = match ty { Some(t) => Some(t), None => p.1 };
            match rp {
                Some(id) => {
                    if p.3.len() > 0 {
                        let ops = ops_with_first(p, OperandKind::Id, id);
                        encode_parts(out, p.0, rt, p.2, &ops);
                    } else {
                        encode_parts(out, p.0, rt, p.2, &p.3);
                    }
                },
                None => {
                    encode_parts(out, p.0, rt, p.2, &p.3);
                },
            }
        },
    }
}

/// Apply split edits `e` to loaded module `m` (with the index of each block
/// instruction) and encode the result.
fn apply_split(m: &PlainModule, pos: &Vec<Vec<usize>>, e: &SplitEdits) -> (w: Vec<u32>)
    requires
        layout_ok(m@),
        positions_ok(pos_view(pos@), m@.1, blocks_of(function_part(m@))),
    ensures
        w@ == module_words(split_header(m@.0, e.bound), split_applied(m@, *e)),
{
    let ghost mv = m@;
    let ghost all = m@.1;
    let n = m.1.len();
    let g1 = m.2[0];
    let g0 = m.2[0] - m.2[4];
    let a0 = g0 - m.2[3];
    let n1 = a0 - m.2[2];
    let n0 = n1 - m.2[1];
    assert(n1 == names_end(mv) && n0 == names_start(mv) && g0 == globals_start(mv) && g1 == globals_end(mv));
    let mut out: Vec<u32> = Vec::new();
    match &m.0 {
        Some(h) => {
            let mut hw = copy_words(h);
            match e.bound {
                Some(b) => { hw.set(3, b); },
                None => {},
            }
            append_words(&mut out, &hw);
        },
        None => {},
    }
    let ghost h0 = out@;
    assert(h0 == opt_words(split_header(mv.0, e.bound)));
    let ghost mut emitted: Seq<PlainView> = Seq::empty();

    // The instructions up to the end of the debug names.
    let mut k: usize = 0;
    while k < n1
        invariant
            k <= n1 <= n == m.1@.len(),
            all == plain_view(m.1@),
            emitted == all.subrange(0, k as int),
            out@ == h0 + encode_insts(emitted),
        decreases n1 - k,
    {
        encode_plain(&mut out, &m.1[k]);
        proof {
            assert(emitted.push(all[k as int]).drop_last() =~= emitted);
            emitted = emitted.push(all[k as int]);
            assert(emitted =~= all.subrange(0, k + 1));
        }
        k = k + 1;
    }

    // The new names.
    let ghost names = all.subrange(n0 as int, n1 as int);
    let ghost base2 = emitted;
    let mut j: usize = 0;
    while j < e.names.len()
        invariant
            n0 <= n1 <= n == m.1@.len(),
            all == plain_view(m.1@),
            names == all.subrange(n0 as int, n1 as int),
            j <= e.names@.len(),
            emitted == base2 + e.names@.take(j as int).map_values(|nn: NewName| name_out(names, nn)),
            out@ == h0 + encode_insts(emitted),
        decreases e.names@.len() - j,
    {
        let nn = e.names[j];
        let named = nn.from < n1 - n0 && m.1[n0 + nn.from].3.len() >= 2;
        let sw = if named {
            suffixed_name_exec(&m.1[n0 + nn.from].3[1].1)
        } else {
            suffixed_name_exec(&Vec::new())
        };
        let ops = vec![(OperandKind::Id, vec![nn.target]), (OperandKind::Text, sw)];
        encode_parts(&mut out, OP_NAME, None, None, &ops);
        proof {
            let x = name_out(names, nn);
            if nn.from < n1 - n0 {
                assert(at_or_empty(names, nn.from as int) == all[n0 + nn.from]);
            } else {
                assert(at_or_empty(names, nn.from as int) == empty_inst());
                assert(Seq::<u32>::empty() =~= Seq::<u32>::empty());
            }
            assert(sw@ == suffixed_name(text_words(at_or_empty(names, nn.from as int)))) by {
                if !named {
                    assert(text_words(at_or_empty(names, nn.from as int)) =~= Seq::<u32>::empty());
                }
            }
            assert(operands_view(ops@) =~~= x.3);
            assert((OP_NAME, None::<u32>, None::<u32>, operands_view(ops@)) == x);
            assert(emitted.push(x).drop_last() =~= emitted);
            assert(e.names@.take(j + 1).map_values(|nn: NewName| name_out(names, nn))
                =~= e.names@.take(j as int).map_values(|nn: NewName| name_out(names, nn)).push(x));
            emitted = emitted.push(x);
        }
        j = j + 1;
    }
    assert(e.names@.take(e.names@.len() as int) =~= e.names@);

    // The rest up to the end of the annotations.
    let ghost base3 = emitted;
    let mut k: usize = n1;
    while k < g0
        invariant
            n1 <= k <= g0 <= n == m.1@.len(),
            all == plain_view(m.1@),
            emitted == base3 + all.subrange(n1 as int, k as int),
            out@ == h0 + encode_insts(emitted),
        decreases g0 - k,
    {
        encode_plain(&mut out, &m.1[k]);
        proof {
            assert(emitted.push(all[k as int]).drop_last() =~= emitted);
            emitted = emitted.push(all[k as int]);
            assert(all.subrange(n1 as int, k + 1) =~= all.subrange(n1 as int, k as int).push(all[k as int]));
        }
        k = k + 1;
    }

    // The new annotations.
    let ghost base4 = emitted;
    let mut j: usize = 0;
    while j < e.annotations.len()
        invariant
            j <= e.annotations@.len(),
            emitted == base4 + insts_view(e.annotations@).take(j as int).map_values(|v: InstView| plain_of(v)),
            out@ == h0 + encode_insts(emitted),
        decreases e.annotations@.len() - j,
    {
        encode_new(&mut out, &e.annotations[j]);
        proof {
            let x = plain_of(e.annotations@[j as int]@);
            assert(emitted.push(x).drop_last() =~= emitted);
            assert(insts_view(e.annotations@).take(j + 1).map_values(|v: InstView| plain_of(v))
                =~= insts_view(e.annotations@).take(j as int).map_values(|v: InstView| plain_of(v)).push(x));
            emitted = emitted.push(x);
        }
        j = j + 1;
    }
    assert(insts_view(e.annotations@).take(e.annotations@.len() as int) =~= insts_view(e.annotations@));

    // The globals in their new order.
    let ghost g = all.subrange(g0 as int, g1 as int);
    let ghost gitems = globals_view(e.globals@);
    let ghost base5 = emitted;
    let mut j: usize = 0;
    while j < e.order.len()
        invariant
            g0 <= g1 <= n == m.1@.len(),
            all == plain_view(m.1@),
            g == all.subrange(g0 as int, g1 as int),
            gitems == globals_view(e.globals@),
            j <= e.order@.len(),
            emitted == base5 + e.order@.take(j as int).map_values(|q: usize| ordered_global(g, gitems, q)),
            out@ == h0 + encode_insts(emitted),
        decreases e.order@.len() - j,
    {
        let q = e.order[j];
        let ghost x = ordered_global(g, gitems, q);
        if q < e.globals.len() {
            match &e.globals[q] {
                GlobalItem::Keep(i) => {
                    let xi = if *i < g1 - g0 { Some(&m.1[g0 + *i]) } else { None };
                    encode_variant(&mut out, xi, None, None);
                },
                GlobalItem::Retyped(i, t) => {
                    let xi = if *i < g1 - g0 { Some(&m.1[g0 + *i]) } else { None };
                    encode_variant(&mut out, xi, Some(*t), None);
                },
                GlobalItem::New(sv) => {
                    encode_new(&mut out, sv);
                },
            }
        } else {
            encode_variant(&mut out, None, None, None);
        }
        proof {
            assert(emitted.push(x).drop_last() =~= emitted);
            assert(e.order@.take(j + 1).map_values(|q: usize| ordered_global(g, gitems, q))
                =~= e.order@.take(j as int).map_values(|q: usize| ordered_global(g, gitems, q)).push(x));
            emitted = emitted.push(x);
        }
        j = j + 1;
    }
    assert(e.order@.take(e.order@.len() as int) =~= e.order@);

    // The functions, each block rebuilt.
    let ghost fp = all.subrange(g1 as int, n as int);
    let ghost ob = blocks_of(fp);
    let ghost nb = e.blocks@.map_values(|b: Vec<BlockItem>| items_view(b@));
    let ghost base6 = emitted;
    let mut inb = false;
    let mut b: usize = 0;
    let mut k: usize = g1;
    assert(fp.take(0) =~= Seq::<PlainView>::empty());
    while k < n
        invariant
            g1 <= k <= n == m.1@.len(),
            all == plain_view(m.1@),
            fp == all.subrange(g1 as int, n as int),
            ob == blocks_of(fp),
            nb == e.blocks@.map_values(|b: Vec<BlockItem>| items_view(b@)),
            positions_ok(pos_view(pos@), all, ob),
            b <= k - g1,
            rebuild_scan(fp.take(k - g1), ob, nb).1 == inb,
            rebuild_scan(fp.take(k - g1), ob, nb).2 == b,
            emitted == base6 + rebuild_scan(fp.take(k - g1), ob, nb).0,
            out@ == h0 + encode_insts(emitted),
        decreases n - k,
    {
        let ghost pre = fp.take(k - g1);
        assert(fp.take(k + 1 - g1).drop_last() =~= pre);
        assert(fp.take(k + 1 - g1).last() == all[k as int]);
        let x = &m.1[k];
        if x.0 == OP_LABEL {
            encode_plain(&mut out, x);
            proof {
                assert(emitted.push(x@).drop_last() =~= emitted);
                emitted = emitted.push(x@);
            }
            let ghost e1 = emitted;
            if b < e.blocks.len() {
                let items = &e.blocks[b];
                let has_blk = b < pos.len();
                let ghost blk: Seq<PlainView> = if b < ob.len() { ob[b as int] } else { Seq::empty() };
                proof {
                    if has_blk {
                        assert(slots_ok(pos_view(pos@)[b as int], all, ob[b as int]));
                    }
                }
                let mut t: usize = 0;
                while t < items.len()
                    invariant
                        all == plain_view(m.1@),
                        n == m.1@.len(),
                        b < e.blocks@.len(),
                        items == e.blocks@[b as int],
                        has_blk == (b < pos@.len()),
                        pos@.len() == ob.len(),
                        blk == (if b < ob.len() { ob[b as int] } else { Seq::<PlainView>::empty() }),
                        has_blk ==> slots_ok(pos_view(pos@)[b as int], all, ob[b as int]),
                        t <= items@.len(),
                        emitted == e1 + items_view(items@).take(t as int).map_values(|it: ItemView| item_out(blk, it)),
                        out@ == h0 + encode_insts(emitted),
                    decreases items@.len() - t,
                {
                    let ghost y = item_out(blk, items@[t as int]@);
                    match &items[t] {
                        BlockItem::New(sv) => {
                            encode_new(&mut out, sv);
                        },
                        BlockItem::Keep(i) => {
                            let xi = if has_blk && *i < pos[b].len() { Some(&m.1[pos[b][*i]]) } else { None };
                            proof { if has_blk && *i < pos[b as int]@.len() { assert(all[pos[b as int]@[*i as int] as int] == ob[b as int][*i as int]); } }
                            encode_variant(&mut out, xi, None, None);
                        },
                        BlockItem::Retyped(i, tt) => {
                            let xi = if has_blk && *i < pos[b].len() { Some(&m.1[pos[b][*i]]) } else { None };
                            proof { if has_blk && *i < pos[b as int]@.len() { assert(all[pos[b as int]@[*i as int] as int] == ob[b as int][*i as int]); } }
                            encode_variant(&mut out, xi, Some(*tt), None);
                        },
                        BlockItem::Repointed(i, id) => {
                            let xi = if has_blk && *i < pos[b].len() { Some(&m.1[pos[b][*i]]) } else { None };
                            proof { if has_blk && *i < pos[b as int]@.len() { assert(all[pos[b as int]@[*i as int] as int] == ob[b as int][*i as int]); } }
                            encode_variant(&mut out, xi, None, Some(*id));
                        },
                    }
                    proof {
                        assert(emitted.push(y).drop_last() =~= emitted);
                        assert(items_view(items@).take(t + 1).map_values(|it: ItemView| item_out(blk, it))
                            =~= items_view(items@).take(t as int).map_values(|it: ItemView| item_out(blk, it)).push(y));
                        emitted = emitted.push(y);
                    }
                    t = t + 1;
                }
                proof {
                    assert(items_view(items@).take(items@.len() as int) =~= items_view(items@));
                    assert(nb[b as int] == items_view(items@));
                    assert(emitted == e1 + block_out(ob, nb, b as nat));
                }
            } else {
                assert(block_out(ob, nb, b as nat) =~= Seq::<PlainView>::empty());
                assert(emitted =~= e1 + block_out(ob, nb, b as nat));
            }
            inb = true;
            b = b + 1;
            proof {
                assert(emitted =~= base6 + rebuild_scan(fp.take(k + 1 - g1), ob, nb).0);
            }
        } else if x.0 == OP_FUNCTION_END {
            encode_plain(&mut out, x);
            proof {
                assert(emitted.push(x@).drop_last() =~= emitted);
                emitted = emitted.push(x@);
                assert(emitted =~= base6 + rebuild_scan(fp.take(k + 1 - g1), ob, nb).0);
            }
            inb = false;
        } else if inb {
        } else {
            encode_plain(&mut out, x);
            proof {
                assert(emitted.push(x@).drop_last() =~= emitted);
                emitted = emitted.push(x@);
                assert(emitted =~= base6 + rebuild_scan(fp.take(k + 1 - g1), ob, nb).0);
            }
        }
        k = k + 1;
    }
    assert(fp.take(n - g1) =~= fp);
    proof {
        assert(emitted =~= split_applied(mv, *e));
    }
    out
}

/// Split every combined image-sampler in SPIR-V `words` into a separate image
/// and sampler (see [`split_module`]): words that do not load are
/// [`SplitError::Parse`]; without a combined sampler the words are returned
/// as they are; an id or binding past the 32-bit range is
/// [`SplitError::Exhausted`]; the split's own errors are returned as they
/// are; otherwise the words of the module with the split's edits applied.
pub fn split_combined_samplers(words: &[u32]) -> (r: Result<Vec<u32>, SplitError>)
    ensures
        split_words(words@, r),
{
    let m = match load_module(words) {
        Err(e) => return Err(SplitError::Parse(e)),
        Ok(m) => m,
    };
    assert(spirv_load_module(words@) == Ok::<ModuleView, Seq<char>>(m@));
    let (view, pos) = split_view(&m);
    let o = split_module(&view);
    let ghost og = o;
    assert(split_reads(m@, og));
    let r = match o {
        Err(err) => Err(err),
        Ok(SplitOutcome::Unchanged) => Ok(vstd::slice::slice_to_vec(words)),
        Ok(SplitOutcome::Exhausted) => Err(SplitError::Exhausted),
        Ok(SplitOutcome::Rewritten(e)) => Ok(apply_split(&m, &pos, &e)),
    };
    assert(split_result(m@, words@, og, r));
    assert(exists|o: Result<SplitOutcome, SplitError>| #[trigger] split_reads(m@, o) && split_result(m@, words@, o, r));
    proof {
        let mm = spirv_load_module(words@)->Ok_0;
        assert(mm == m@);
        assert(split_reads(mm, og) && split_result(mm, words@, og, r));
    }
    assert(split_words(words@, r));
    r
}

/// What splitting `words` comes to: the loader's error as
/// [`SplitError::Parse`], or what the split of the loaded module comes to.
pub open spec fn split_words(words: Seq<u32>, r: Result<Vec<u32>, SplitError>) -> bool {
    match spirv_load_module(words) {
        Err(e) => r matches Err(SplitError::Parse(s)) && s@ == e,
        Ok(m) => exists|o: Result<SplitOutcome, SplitError>| #[trigger] split_reads(m, o) && split_result(m, words, o, r),
    }
}

/// Module `m` read as the split reads it, and `o` is what the split of it
/// comes to (see [`split_matches`]).
pub open spec fn split_reads(m: ModuleView, o: Result<SplitOutcome, SplitError>) -> bool {
    split_matches(header_bound(m.0), insts_of(m.1), insts_of(m.1.subrange(names_start(m), names_end(m))),
        insts_of(m.1.subrange(crate::spirv_model::annotations_start(m), globals_start(m))),
        insts_of(m.1.subrange(globals_start(m), globals_end(m))), read_blocks(blocks_of(function_part(m))), o)
}

/// `r` is what the words come to when the split of module `m` comes to `o`.
pub open spec fn split_result(m: ModuleView, words: Seq<u32>, o: Result<SplitOutcome, SplitError>,
    r: Result<Vec<u32>, SplitError>) -> bool {
    match o {
        Err(err) => r == Err::<Vec<u32>, SplitError>(err),
        Ok(SplitOutcome::Unchanged) => r matches Ok(w) && w@ == words,
        Ok(SplitOutcome::Exhausted) => r matches Err(SplitError::Exhausted),
        Ok(SplitOutcome::Rewritten(e)) => r matches Ok(w) && w@ == module_words(split_header(m.0, e.bound), split_applied(m, e)),
    }
}

/// The module-scope variables of `m` as the split reads them.
pub open spec fn globals_of(m: ModuleView) -> Seq<InstView> {
    insts_of(m.1.subrange(globals_start(m), globals_end(m)))
}

/// Module `m` declares no combined image-sampler variable (no uniform-constant
/// variable whose pointee is or contains a sampled image).
pub open spec fn has_no_combined_sampler(m: ModuleView) -> bool {
    let g = globals_of(m);
    combined_scan(g, sampled_table(g), component_table(g), g) matches Ok(vs) && vs.len() == 0
}

/// Splitting words that load and declare no combined image-sampler gives
/// the same words back.
pub proof fn lemma_split_without_combined_is_identity(words: Seq<u32>, r: Result<Vec<u32>, SplitError>)
    requires
        split_words(words, r),
        spirv_load_module(words) is Ok,
        has_no_combined_sampler(spirv_load_module(words)->Ok_0),
    ensures
        r matches Ok(w) && w@ == words,
{
    let m = spirv_load_module(words)->Ok_0;
    let o = choose|o: Result<SplitOutcome, SplitError>| #[trigger] split_reads(m, o) && split_result(m, words, o, r);
    assert(split_reads(m, o) && split_result(m, words, o, r));
    assert(o matches Ok(SplitOutcome::Unchanged));
}

} // verus!
