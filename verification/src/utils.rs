//! Handle codec: a handle is one `u64` whose low 32 bits are a slot index and
//! whose high 32 bits are the version of that slot.

use vstd::prelude::*;

verus! {

/// Number of values of one 32-bit field of a handle.
pub const FIELD_SPAN: u64 = 0x1_0000_0000;

/// The two fields of a handle.
#[derive(Clone, Copy, Debug, PartialEq, Eq, Structural)]
pub struct IndexPair {
    /// Position of the slot, the low 32 bits of the handle.
    pub index: u32,
    /// Version of the slot, the high 32 bits of the handle.
    pub version: u32,
}

impl IndexPair {
    /// Pairs a position with a version. A position wider than 32 bits keeps
    /// its low 32 bits.
    pub fn new(index: usize, version: u32) -> (pair: Self)
        ensures
            pair.index as int == (index as int) % (FIELD_SPAN as int),
            pair.version == version,
    {
        let wide: u64 = index as u64;
        let low: u64 = wide & 0xffff_ffff;
        assert(low == wide % 0x1_0000_0000 && low <= 0xffff_ffff) by (bit_vector)
            requires
                low == wide & 0xffff_ffff,
        ;
        Self { index: low as u32, version }
    }
}

/// The handle that packs `pair`: as a number, the index plus the version
/// times the span of the index.
pub open spec fn spec_to_id(pair: IndexPair) -> u64 {
    (pair.index as int + pair.version as int * (FIELD_SPAN as int)) as u64
}

/// The fields packed in `id`: the remainder and the quotient by the span of
/// the index.
pub open spec fn spec_from_id(id: u64) -> IndexPair {
    IndexPair { index: (id % FIELD_SPAN) as u32, version: (id / FIELD_SPAN) as u32 }
}

/// Packs a pair into a handle: index in the low half, version in the high half.
#[verifier::when_used_as_spec(spec_to_id)]
pub fn to_id(pair: IndexPair) -> (id: u64)
    ensures
        id == spec_to_id(pair),
        spec_from_id(id) == pair,
        id & 0xffff_ffff == pair.index,
        id >> 32 == pair.version,
{
    let low: u64 = pair.index as u64;
    let high: u64 = pair.version as u64;
    let id: u64 = low | (high << 32);
    assert(id == low + high * 0x1_0000_0000 && id % 0x1_0000_0000 == low && id / 0x1_0000_0000
        == high && id & 0xffff_ffff == low && id >> 32 == high) by (bit_vector)
        requires
            id == low | (high << 32),
            low <= 0xffff_ffff,
            high <= 0xffff_ffff,
    ;
    id
}

/// Unpacks a handle into its pair.
#[verifier::when_used_as_spec(spec_from_id)]
pub fn from_id(id: u64) -> (pair: IndexPair)
    ensures
        pair == spec_from_id(id),
        spec_to_id(pair) == id,
        pair.index == id & 0xffff_ffff,
        pair.version == id >> 32,
{
    let low: u64 = id & 0xffff_ffff;
    let high: u64 = id >> 32;
    assert(low == id % 0x1_0000_0000 && high == id / 0x1_0000_0000 && low <= 0xffff_ffff && high
        <= 0xffff_ffff) by (bit_vector)
        requires
            low == id & 0xffff_ffff,
            high == id >> 32,
    ;
    IndexPair { index: low as u32, version: high as u32 }
}

/// Packing and unpacking are inverse to each other, on every pair and on
/// every handle.
pub proof fn lemma_codec_inverse(pair: IndexPair, id: u64)
    ensures
        spec_from_id(spec_to_id(pair)) == pair,
        spec_to_id(spec_from_id(id)) == id,
{
}

/// Two pairs share a handle only if they are the same pair.
pub proof fn lemma_to_id_injective(a: IndexPair, b: IndexPair)
    requires
        spec_to_id(a) == spec_to_id(b),
    ensures
        a == b,
{
    lemma_codec_inverse(a, 0);
    lemma_codec_inverse(b, 0);
}

} // verus!
