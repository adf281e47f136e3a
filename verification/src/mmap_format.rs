//! The header of the file layout reserved for persistence: the magic
//! `FXSTORE1`, then the version, the symbol count, the block count, the
//! index offset and the data offset, little-endian and without gaps.

use vstd::prelude::*;
use vstd::bytes::*;
use vstd::slice::slice_subrange;

verus! {

/// Bytes of the header.
pub const HEADER_BYTES: usize = 40;

/// The version that is written today.
pub const FORMAT_VERSION: u32 = 1;

/// The eight bytes `FXSTORE1`.
pub open spec fn magic() -> Seq<u8> {
    seq![70u8, 88u8, 83u8, 84u8, 79u8, 82u8, 69u8, 49u8]
}

/// What the header says.
#[derive(Copy, Clone, Debug, PartialEq, Eq, Structural)]
pub struct MmapHeader {
    pub version: u32,
    pub symbol_count: u32,
    pub block_count: u64,
    pub index_offset: u64,
    pub data_offset: u64,
}

/// The 40 bytes of a header.
pub open spec fn header_bytes(header: MmapHeader) -> Seq<u8> {
    magic() + spec_u32_to_le_bytes(header.version) + spec_u32_to_le_bytes(header.symbol_count)
        + spec_u64_to_le_bytes(header.block_count) + spec_u64_to_le_bytes(header.index_offset)
        + spec_u64_to_le_bytes(header.data_offset)
}

/// The header that opens `bytes`: `None` where there are fewer than 40
/// bytes or they do not open with the magic.
pub open spec fn header_of(bytes: Seq<u8>) -> Option<MmapHeader> {
    if bytes.len() >= HEADER_BYTES as nat && bytes.subrange(0, 8) == magic() {
        Some(
            MmapHeader {
                version: spec_u32_from_le_bytes(bytes.subrange(8, 12)),
                symbol_count: spec_u32_from_le_bytes(bytes.subrange(12, 16)),
                block_count: spec_u64_from_le_bytes(bytes.subrange(16, 24)),
                index_offset: spec_u64_from_le_bytes(bytes.subrange(24, 32)),
                data_offset: spec_u64_from_le_bytes(bytes.subrange(32, 40)),
            },
        )
    } else {
        None
    }
}

/// A header has 40 bytes, opens with the magic, and reads back as it was
/// written, whatever follows it.
pub proof fn lemma_header_round_trip(header: MmapHeader, rest: Seq<u8>)
    ensures
        header_bytes(header).len() == HEADER_BYTES as nat,
        header_of(header_bytes(header) + rest) == Some(header),
{
    lemma_auto_spec_u64_to_from_le_bytes();
    lemma_auto_spec_u32_to_from_le_bytes();
    let s = header_bytes(header) + rest;
    assert(s.subrange(0, 8) =~= magic());
    assert(s.subrange(8, 12) =~= spec_u32_to_le_bytes(header.version));
    assert(s.subrange(12, 16) =~= spec_u32_to_le_bytes(header.symbol_count));
    assert(s.subrange(16, 24) =~= spec_u64_to_le_bytes(header.block_count));
    assert(s.subrange(24, 32) =~= spec_u64_to_le_bytes(header.index_offset));
    assert(s.subrange(32, 40) =~= spec_u64_to_le_bytes(header.data_offset));
}

impl MmapHeader {
    /// The header of a file that holds nothing yet.
    pub fn fresh() -> (header: Self)
        ensures
            header == (MmapHeader {
                version: FORMAT_VERSION,
                symbol_count: 0,
                block_count: 0,
                index_offset: 0,
                data_offset: 0,
            }),
    {
        MmapHeader {
            version: FORMAT_VERSION,
            symbol_count: 0,
            block_count: 0,
            index_offset: 0,
            data_offset: 0,
        }
    }

    /// The bytes of the header.
    pub fn encode(&self) -> (bytes: Vec<u8>)
        ensures
            bytes@ == header_bytes(*self),
    {
        let mut bytes: Vec<u8> = Vec::new();
        bytes.push(70u8);
        bytes.push(88u8);
        bytes.push(83u8);
        bytes.push(84u8);
        bytes.push(79u8);
        bytes.push(82u8);
        bytes.push(69u8);
        bytes.push(49u8);
        assert(bytes@ =~= magic());
        let mut version = u32_to_le_bytes(self.version);
        let mut symbols = u32_to_le_bytes(self.symbol_count);
        let mut blocks = u64_to_le_bytes(self.block_count);
        let mut index = u64_to_le_bytes(self.index_offset);
        let mut data = u64_to_le_bytes(self.data_offset);
        bytes.append(&mut version);
        bytes.append(&mut symbols);
        bytes.append(&mut blocks);
        bytes.append(&mut index);
        bytes.append(&mut data);
        assert(bytes@ =~= header_bytes(*self));
        bytes
    }

    /// Reads the header that opens `bytes`.
    pub fn decode(bytes: &[u8]) -> (header: Option<Self>)
        ensures
            header == header_of(bytes@),
    {
        if bytes.len() < HEADER_BYTES {
            return None;
        }
        let opening = slice_subrange(bytes, 0, 8);
        let is_magic = opening[0] == 70 && opening[1] == 88 && opening[2] == 83 && opening[3] == 84
            && opening[4] == 79 && opening[5] == 82 && opening[6] == 69 && opening[7] == 49;
        if !is_magic {
            assert(opening@ != magic()) by {
                if opening@ == magic() {
                    assert(magic()[0] == 70 && magic()[1] == 88 && magic()[2] == 83 && magic()[3]
                        == 84 && magic()[4] == 79 && magic()[5] == 82 && magic()[6] == 69
                        && magic()[7] == 49);
                }
            }
            return None;
        }
        assert(opening@ =~= magic());
        Some(
            MmapHeader {
                version: u32_from_le_bytes(slice_subrange(bytes, 8, 12)),
                symbol_count: u32_from_le_bytes(slice_subrange(bytes, 12, 16)),
                block_count: u64_from_le_bytes(slice_subrange(bytes, 16, 24)),
                index_offset: u64_from_le_bytes(slice_subrange(bytes, 24, 32)),
                data_offset: u64_from_le_bytes(slice_subrange(bytes, 32, 40)),
            },
        )
    }
}

} // verus!
