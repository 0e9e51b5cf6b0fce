//! The v7 header copy: durable lineage, identity watermark, sequence, generation
//! and the three aggregate checksums of the generation it names.
//!
//! Offsets: magic 0..8, version 8, layout 9, generation 10, zero 11, lineage
//! 12..28, epoch 28..36, sequence 36..44, next 44..48, node table checksum
//! 48..52, map checksum 52..56, receipt block checksum 56..60, then the frozen
//! geometry (objects, node bytes, map bytes, payload sectors, retained records,
//! features, record bytes) 60..88, extents per file 88, zero 89..508, and the
//! CRC-32 of the copy with its own field zeroed at 508..512.
use vstd::prelude::*;
use vstd::bytes::*;
use crate::checksum::{crc, spec_crc};
use crate::codec::{
    zero_range, zeroed, put, put_u32, put_u64, get_u32, get_u64, is_zero, matches_at, copy_zeroed,
    spec_array, lemma_array, take_array, all_zero, lemma_le32, lemma_le64,
};
use super::{
    FEATURES, GENERATIONS, LAYOUT, MAGIC, MAP_BYTES, MAX_EXTENTS, NODE_BYTES, NODES, RECORD_BYTES,
    RETAINED, VERSION,
};
use crate::extent::DATA_SECTORS;
use crate::Error;

verus! {

/// Smallest watermark a volume may carry: identities 1..=4 name the roots.
pub const NEXT_MIN: u32 = 5;
/// A watermark of `u32::MAX` is exhausted.
pub const NEXT_EXHAUSTED: u32 = 4294967295;

/// The durable head of a v7 volume. `epoch` is the retry generation a client
/// binds to; `sequence` is the global transaction identity; `next` is the
/// monotonic identity watermark.
#[derive(Clone, Copy, Debug, PartialEq, Eq)]
pub struct Header7 {
    pub lineage: [u8; 16],
    pub epoch: u64,
    pub sequence: u64,
    pub next: u32,
    /// The generation whose node table, map and receipt block the checksums
    /// describe.
    pub generation: u8,
    pub nodes_checksum: u32,
    pub map_checksum: u32,
    pub receipts_checksum: u32,
}

/// The header's own invariants.
pub open spec fn header7_valid(h: Header7) -> bool {
    &&& h.lineage@ != Seq::new(16, |i: int| 0u8)
    &&& h.sequence >= 1
    &&& h.epoch >= 1
    &&& h.epoch <= h.sequence
    &&& h.next >= NEXT_MIN
    &&& h.generation < GENERATIONS
}

/// `b` is the sector image of `h`.
pub open spec fn encodes_header7(b: Seq<u8>, h: Header7) -> bool {
    &&& b.len() == 512
    &&& b.subrange(0, 8) == MAGIC@
    &&& b[8] == VERSION
    &&& b[9] == LAYOUT
    &&& b[10] == h.generation
    &&& b[11] == 0
    &&& b.subrange(12, 28) == h.lineage@
    &&& b.subrange(28, 36) == spec_u64_to_le_bytes(h.epoch)
    &&& b.subrange(36, 44) == spec_u64_to_le_bytes(h.sequence)
    &&& b.subrange(44, 48) == spec_u32_to_le_bytes(h.next)
    &&& b.subrange(48, 52) == spec_u32_to_le_bytes(h.nodes_checksum)
    &&& b.subrange(52, 56) == spec_u32_to_le_bytes(h.map_checksum)
    &&& b.subrange(56, 60) == spec_u32_to_le_bytes(h.receipts_checksum)
    &&& geometry(b)
    &&& zero_range(b, 89, 508)
    &&& b.subrange(508, 512) == spec_u32_to_le_bytes(spec_crc(zeroed(b, 508, 512)))
}

/// The frozen geometry fields hold the values this codec implements.
pub open spec fn geometry(b: Seq<u8>) -> bool {
    &&& b.subrange(60, 64) == spec_u32_to_le_bytes(NODES as u32)
    &&& b.subrange(64, 68) == spec_u32_to_le_bytes(NODE_BYTES as u32)
    &&& b.subrange(68, 72) == spec_u32_to_le_bytes(MAP_BYTES as u32)
    &&& b.subrange(72, 76) == spec_u32_to_le_bytes(DATA_SECTORS as u32)
    &&& b.subrange(76, 80) == spec_u32_to_le_bytes(RETAINED as u32)
    &&& b.subrange(80, 84) == spec_u32_to_le_bytes(FEATURES)
    &&& b.subrange(84, 88) == spec_u32_to_le_bytes(RECORD_BYTES as u32)
    &&& b[88] == MAX_EXTENTS
}

pub open spec fn decoded_header7(b: Seq<u8>) -> Header7 {
    Header7 {
        lineage: spec_array::<16>(b.subrange(12, 28)),
        epoch: spec_u64_from_le_bytes(b.subrange(28, 36)),
        sequence: spec_u64_from_le_bytes(b.subrange(36, 44)),
        next: spec_u32_from_le_bytes(b.subrange(44, 48)),
        generation: b[10],
        nodes_checksum: spec_u32_from_le_bytes(b.subrange(48, 52)),
        map_checksum: spec_u32_from_le_bytes(b.subrange(52, 56)),
        receipts_checksum: spec_u32_from_le_bytes(b.subrange(56, 60)),
    }
}

/// What a header copy decodes to; every refusal is `Corrupt`.
pub open spec fn spec_decode_header7(b: Seq<u8>) -> Result<Header7, Error> {
    if b.len() != 512 || b.subrange(0, 8) != MAGIC@ || b[8] != VERSION || b[9] != LAYOUT || b[10]
        >= GENERATIONS || b[11] != 0 || !zero_range(b, 89, 508) || spec_u32_from_le_bytes(
        b.subrange(60, 64),
    ) != NODES || spec_u32_from_le_bytes(b.subrange(64, 68)) != NODE_BYTES
        || spec_u32_from_le_bytes(b.subrange(68, 72)) != MAP_BYTES || spec_u32_from_le_bytes(
        b.subrange(72, 76),
    ) != DATA_SECTORS || spec_u32_from_le_bytes(b.subrange(76, 80)) != RETAINED
        || spec_u32_from_le_bytes(b.subrange(80, 84)) != FEATURES || spec_u32_from_le_bytes(
        b.subrange(84, 88),
    ) != RECORD_BYTES || b[88] != MAX_EXTENTS || spec_crc(zeroed(b, 508, 512))
        != spec_u32_from_le_bytes(b.subrange(508, 512)) || !header7_valid(decoded_header7(b)) {
        Err(Error::Corrupt)
    } else {
        Ok(decoded_header7(b))
    }
}

impl Header7 {
    pub const INITIAL_SEQUENCE: u64 = 1;
    pub const INITIAL_EPOCH: u64 = 1;

    /// A volume that has never been committed: generation 0, first sequence,
    /// no aggregate checksums and the first identity still to allocate.
    pub open spec fn spec_initial(lineage: [u8; 16]) -> Self {
        Header7 {
            lineage,
            epoch: 1,
            sequence: 1,
            next: NEXT_MIN,
            generation: 0,
            nodes_checksum: 0,
            map_checksum: 0,
            receipts_checksum: 0,
        }
    }

    pub fn initial(lineage: [u8; 16]) -> (r: Self)
        ensures
            r == Self::spec_initial(lineage),
    {
        Self {
            lineage,
            epoch: 1,
            sequence: 1,
            next: NEXT_MIN,
            generation: 0,
            nodes_checksum: 0,
            map_checksum: 0,
            receipts_checksum: 0,
        }
    }

    /// The header's own invariants: an unbroken lineage, a started sequence, an
    /// epoch no newer than the sequence, a watermark at least `NEXT_MIN`, and a
    /// generation of 0 or 1. Every refusal is `Corrupt`.
    pub fn validate(&self) -> (r: Result<(), Error>)
        ensures
            r is Ok <==> header7_valid(*self),
            r is Err ==> r == Err::<(), Error>(Error::Corrupt),
    {
        let zero = all_zero(&self.lineage);
        if zero || self.sequence < 1 || self.epoch < 1 || self.epoch > self.sequence || self.next
            < NEXT_MIN || self.generation >= GENERATIONS {
            proof {
                if zero {
                    assert(self.lineage@ =~= Seq::new(16, |i: int| 0u8));
                }
            }
            return Err(Error::Corrupt);
        }
        Ok(())
    }

    /// Serialize a copy this codec reads back; an invalid header is refused.
    pub fn encode(&self) -> (r: Result<[u8; 512], Error>)
        ensures
            r is Ok <==> header7_valid(*self),
            r is Err ==> r == Err::<[u8; 512], Error>(Error::Corrupt),
            r matches Ok(b) ==> encodes_header7(b@, *self),
    {
        self.validate()?;
        let mut b = [0u8; 512];
        let magic = MAGIC;
        put(&mut b, 0, magic.as_slice());
        b[8] = VERSION;
        b[9] = LAYOUT;
        b[10] = self.generation;
        put(&mut b, 12, self.lineage.as_slice());
        put_u64(&mut b, 28, self.epoch);
        put_u64(&mut b, 36, self.sequence);
        put_u32(&mut b, 44, self.next);
        put_u32(&mut b, 48, self.nodes_checksum);
        put_u32(&mut b, 52, self.map_checksum);
        put_u32(&mut b, 56, self.receipts_checksum);
        put_u32(&mut b, 60, NODES as u32);
        put_u32(&mut b, 64, NODE_BYTES as u32);
        put_u32(&mut b, 68, MAP_BYTES as u32);
        put_u32(&mut b, 72, DATA_SECTORS as u32);
        put_u32(&mut b, 76, RETAINED as u32);
        put_u32(&mut b, 80, FEATURES);
        put_u32(&mut b, 84, RECORD_BYTES as u32);
        b[88] = MAX_EXTENTS as u8;
        let ghost body = b@;
        let checksum = crc(b.as_slice());
        put_u32(&mut b, 508, checksum);
        proof {
            assert(zeroed(b@, 508, 512) =~= body);
            assert(b@.subrange(0, 8) =~= MAGIC@);
            assert(b@.subrange(12, 28) =~= self.lineage@);
            assert(b@.subrange(28, 36) =~= spec_u64_to_le_bytes(self.epoch));
            assert(b@.subrange(36, 44) =~= spec_u64_to_le_bytes(self.sequence));
            assert(b@.subrange(44, 48) =~= spec_u32_to_le_bytes(self.next));
            assert(b@.subrange(48, 52) =~= spec_u32_to_le_bytes(self.nodes_checksum));
            assert(b@.subrange(52, 56) =~= spec_u32_to_le_bytes(self.map_checksum));
            assert(b@.subrange(56, 60) =~= spec_u32_to_le_bytes(self.receipts_checksum));
            assert(b@.subrange(60, 64) =~= spec_u32_to_le_bytes(NODES as u32));
            assert(b@.subrange(64, 68) =~= spec_u32_to_le_bytes(NODE_BYTES as u32));
            assert(b@.subrange(68, 72) =~= spec_u32_to_le_bytes(MAP_BYTES as u32));
            assert(b@.subrange(72, 76) =~= spec_u32_to_le_bytes(DATA_SECTORS as u32));
            assert(b@.subrange(76, 80) =~= spec_u32_to_le_bytes(RETAINED as u32));
            assert(b@.subrange(80, 84) =~= spec_u32_to_le_bytes(FEATURES));
            assert(b@.subrange(84, 88) =~= spec_u32_to_le_bytes(RECORD_BYTES as u32));
            assert(b@.subrange(508, 512) =~= spec_u32_to_le_bytes(checksum));
        }
        Ok(b)
    }

    /// Refuse any copy this codec does not implement exactly, with a broken
    /// checksum, or with a head whose own invariants fail.
    pub fn decode(b: &[u8; 512]) -> (r: Result<Self, Error>)
        ensures
            r == spec_decode_header7(b@),
    {
        let checksum = get_u32(b, 508);
        let body = copy_zeroed(b, 508, 512);
        let magic = MAGIC;
        if !matches_at(b, 0, magic.as_slice()) || b[8] != VERSION || b[9] != LAYOUT || b[10]
            >= GENERATIONS || b[11] != 0 || !is_zero(b, 89, 508) || get_u32(b, 60) as usize != NODES
            || get_u32(b, 64) as usize != NODE_BYTES || get_u32(b, 68) as u64 != MAP_BYTES
            || get_u32(b, 72) as u64 != DATA_SECTORS || get_u32(b, 76) as usize != RETAINED
            || get_u32(b, 80) != FEATURES || get_u32(b, 84) as usize != RECORD_BYTES || b[88]
            as usize != MAX_EXTENTS || crc(body.as_slice()) != checksum {
            return Err(Error::Corrupt);
        }
        let lineage: [u8; 16] = take_array(b, 12);
        proof {
            lemma_array::<16>(lineage);
        }
        let header = Self {
            lineage,
            epoch: get_u64(b, 28),
            sequence: get_u64(b, 36),
            next: get_u32(b, 44),
            generation: b[10],
            nodes_checksum: get_u32(b, 48),
            map_checksum: get_u32(b, 52),
            receipts_checksum: get_u32(b, 56),
        };
        header.validate()?;
        Ok(header)
    }

    /// The identity a later allocator may hand out, or `Exhausted` once the
    /// watermark reaches `NEXT_EXHAUSTED`.
    pub fn next_id(&self) -> (r: Result<u32, Error>)
        ensures
            r == if self.next == NEXT_EXHAUSTED {
                Err(Error::Exhausted)
            } else {
                Ok(self.next)
            },
    {
        if self.next == NEXT_EXHAUSTED {
            Err(Error::Exhausted)
        } else {
            Ok(self.next)
        }
    }
}

/// A valid header survives encoding and decoding unchanged.
pub proof fn lemma_header7_roundtrip(b: Seq<u8>, h: Header7)
    requires
        encodes_header7(b, h),
        header7_valid(h),
    ensures
        spec_decode_header7(b) == Ok::<Header7, Error>(h),
{
    lemma_le64(h.epoch);
    lemma_le64(h.sequence);
    lemma_le32(h.next);
    lemma_le32(h.nodes_checksum);
    lemma_le32(h.map_checksum);
    lemma_le32(h.receipts_checksum);
    lemma_le32(NODES as u32);
    lemma_le32(NODE_BYTES as u32);
    lemma_le32(MAP_BYTES as u32);
    lemma_le32(DATA_SECTORS as u32);
    lemma_le32(RETAINED as u32);
    lemma_le32(FEATURES);
    lemma_le32(RECORD_BYTES as u32);
    lemma_le32(spec_crc(zeroed(b, 508, 512)));
    lemma_array::<16>(h.lineage);
}

} // verus!
