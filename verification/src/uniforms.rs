//! The `#pragma parameter` value block: each parameter's default packed as a
//! consecutive 4-byte std140 scalar, padded to a whole number of 16-byte
//! vectors.

use vstd::prelude::*;
use crate::frame::le_bytes;

verus! {

/// A `#pragma parameter` with its numeric fields held as IEEE-754 binary32 bit
/// patterns (the exact bytes a shader reads).
#[derive(Debug, Clone, PartialEq, Eq)]
pub struct Parameter {
    /// The parameter's identifier.
    pub name: String,
    /// The human-readable label.
    pub label: String,
    /// Default value (binary32 bits).
    pub default: u32,
    /// Minimum value (binary32 bits).
    pub min: u32,
    /// Maximum value (binary32 bits).
    pub max: u32,
    /// Slider step (binary32 bits).
    pub step: u32,
}

/// The little-endian bytes of each default, in order.
pub open spec fn defaults_bytes(params: Seq<Parameter>) -> Seq<u8>
    decreases params.len(),
{
    if params.len() == 0 {
        Seq::empty()
    } else {
        defaults_bytes(params.drop_last()) + le_bytes(params.last().default as nat, 4)
    }
}

/// `n` rounded up to a multiple of 16, and at least 16.
pub open spec fn padded_len(n: nat) -> nat {
    let k = (n + 15) / 16;
    if k == 0 { 16 } else { k * 16 }
}

/// The packed parameter block: the defaults followed by zero padding.
pub open spec fn param_block(params: Seq<Parameter>) -> Seq<u8> {
    let b = defaults_bytes(params);
    b + Seq::new((padded_len(b.len()) - b.len()) as nat, |i: int| 0u8)
}

proof fn lemma_defaults_len(params: Seq<Parameter>)
    ensures
        defaults_bytes(params).len() == 4 * params.len(),
    decreases params.len(),
{
    if params.len() > 0 {
        lemma_defaults_len(params.drop_last());
        reveal_with_fuel(le_bytes, 5);
    }
}

/// Append `v` little-endian as four bytes.
fn push_u32_le(buf: &mut Vec<u8>, v: u32)
    ensures
        final(buf)@ == old(buf)@ + le_bytes(v as nat, 4),
{
    let ghost start = buf@;
    buf.push((v % 256) as u8);
    buf.push((v / 256 % 256) as u8);
    buf.push((v / 65536 % 256) as u8);
    buf.push((v / 16777216 % 256) as u8);
    proof {
        reveal_with_fuel(le_bytes, 5);
        assert(v as nat / 256 / 256 == v as nat / 65536);
        assert(v as nat / 256 / 256 / 256 == v as nat / 16777216);
        assert(buf@ =~= start + le_bytes(v as nat, 4));
    }
}

/// Pack the parameter defaults into the std140 parameter-block image: each
/// default as a consecutive 4-byte scalar in declaration order, then zero
/// padding up to a multiple of 16 bytes (never empty: at least one vec4).
pub fn pack_parameters(params: &[Parameter]) -> (bytes: Vec<u8>)
    requires
        params@.len() * 4 + 16 <= usize::MAX,
    ensures
        bytes@ == param_block(params@),
        bytes@.len() % 16 == 0,
        bytes@.len() >= 16,
{
    let mut bytes: Vec<u8> = Vec::new();
    let mut i: usize = 0;
    while i < params.len()
        invariant
            i <= params@.len(),
            bytes@ == defaults_bytes(params@.take(i as int)),
        decreases params@.len() - i,
    {
        assert(params@.take(i + 1).drop_last() =~= params@.take(i as int));
        push_u32_le(&mut bytes, params[i].default);
        i = i + 1;
    }
    assert(params@.take(params@.len() as int) =~= params@);
    proof { lemma_defaults_len(params@); }
    let len = bytes.len();
    let k = (len + 15) / 16;
    let padded = if k == 0 { 16 } else { k * 16 };
    let ghost b = bytes@;
    while bytes.len() < padded
        invariant
            b.len() == len,
            len <= padded,
            padded == padded_len(len as nat),
            bytes@.len() <= padded,
            bytes@ == b + Seq::new((bytes@.len() - len) as nat, |i: int| 0u8),
        decreases padded - bytes@.len(),
    {
        bytes.push(0);
        assert(bytes@ =~= b + Seq::new((bytes@.len() - len) as nat, |i: int| 0u8));
    }
    bytes
}

} // verus!
