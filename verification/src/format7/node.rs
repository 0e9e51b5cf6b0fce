//! The v7 control record: one object's identity, name and payload runs.
//!
//! Offsets: id 0..4, parent 4..8, version 8..16, length 16..20, kind 20, space
//! 21, extents used 22, name length 23, eight `(start, sectors)` u32 pairs
//! 24..88, name 88..120, payload CRC-32 120..124, CRC-32 of bytes 0..124 at
//! 124..128. An all-zero slot is the canonical empty record.
use vstd::prelude::*;
use vstd::bytes::*;
use vstd::slice::slice_subrange;
use crate::checksum::{crc, spec_crc};
use crate::codec::{
    zero_range, put, put_u32, put_u64, get_u32, get_u64, is_zero, prefix, put_runs, get_runs,
    holds_runs, holds_run, spec_run_at, spec_runs_from, runs_seq, lemma_runs_from,
    lemma_run_roundtrip, zero_runs, lemma_zero_runs, spec_bytes32, lemma_bytes32, lemma_le32,
    lemma_le64, take_array, all_zero,
};
use crate::extent::{Extent, DATA_SECTORS};
use crate::namespace::{Kind, kind_byte, kind_code, valid_name, spec_valid_name};
use super::{MAX_EXTENTS, MAX_FILE_BYTES, NODE_BYTES, check_payload, payload_ok, is_zero_run};
use crate::Error;

verus! {

/// Bytes of the fixed name field.
pub const NAME_BYTES: usize = 32;
/// Largest name the namespace rules accept.
pub const NAME_MAX: usize = 31;

#[derive(Clone, Copy, Debug, PartialEq, Eq)]
pub struct Node7 {
    pub id: u32,
    pub parent: u32,
    pub version: u64,
    pub length: u32,
    pub kind: Kind,
    pub space: u8,
    pub extents_used: u8,
    pub extents: [Extent; MAX_EXTENTS],
    pub name_length: u8,
    pub name: [u8; NAME_BYTES],
    pub payload_crc32: u32,
}

/// The canonical empty slot: every field zero.
pub open spec fn empty_node7() -> Node7 {
    Node7 {
        id: 0,
        parent: 0,
        version: 0,
        length: 0,
        kind: Kind::Empty,
        space: 0,
        extents_used: 0,
        extents: zero_runs(),
        name_length: 0,
        name: spec_bytes32(Seq::new(32, |i: int| 0u8)),
        payload_crc32: 0,
    }
}

/// What one record can prove about itself: the empty slot, or a live identity
/// in a real space with a valid zero-padded name and payload runs that describe
/// its length exactly; a directory owns no payload.
pub open spec fn node7_valid(n: Node7) -> bool {
    ||| n == empty_node7()
    ||| {
        &&& n.id != 0
        &&& n.version != 0
        &&& n.kind != Kind::Empty
        &&& 1 <= n.space <= 4
        &&& n.name_length <= NAME_MAX
        &&& spec_valid_name(n.name@.take(n.name_length as int))
        &&& zero_range(n.name@, n.name_length as int, 32)
        &&& (n.kind == Kind::Directory ==> n.length == 0 && n.payload_crc32 == 0
            && n.extents_used == 0)
        &&& n.length <= MAX_FILE_BYTES
        &&& payload_ok(n.extents@, n.extents_used as int, n.length as int)
    }
}

/// `b` is the 128-byte image of a live record `n`.
pub open spec fn encodes_node7(b: Seq<u8>, n: Node7) -> bool {
    &&& b.len() == 128
    &&& b.subrange(0, 4) == spec_u32_to_le_bytes(n.id)
    &&& b.subrange(4, 8) == spec_u32_to_le_bytes(n.parent)
    &&& b.subrange(8, 16) == spec_u64_to_le_bytes(n.version)
    &&& b.subrange(16, 20) == spec_u32_to_le_bytes(n.length)
    &&& b[20] == kind_code(n.kind)
    &&& b[21] == n.space
    &&& b[22] == n.extents_used
    &&& b[23] == n.name_length
    &&& holds_runs(b, 24, n.extents@)
    &&& b.subrange(88, 120) == n.name@
    &&& b.subrange(120, 124) == spec_u32_to_le_bytes(n.payload_crc32)
    &&& b.subrange(124, 128) == spec_u32_to_le_bytes(spec_crc(b.subrange(0, 124)))
}

pub open spec fn decoded_node7(b: Seq<u8>) -> Node7 {
    Node7 {
        id: spec_u32_from_le_bytes(b.subrange(0, 4)),
        parent: spec_u32_from_le_bytes(b.subrange(4, 8)),
        version: spec_u64_from_le_bytes(b.subrange(8, 16)),
        length: spec_u32_from_le_bytes(b.subrange(16, 20)),
        kind: if b[20] == 1 {
            Kind::File
        } else {
            Kind::Directory
        },
        space: b[21],
        extents_used: b[22],
        extents: spec_runs_from(b, 24),
        name_length: b[23],
        name: spec_bytes32(b.subrange(88, 120)),
        payload_crc32: spec_u32_from_le_bytes(b.subrange(120, 124)),
    }
}

/// What a node slot decodes to; every refusal is `Corrupt`.
pub open spec fn spec_decode_node7(b: Seq<u8>) -> Result<Node7, Error> {
    if zero_range(b, 0, 128) {
        Ok(empty_node7())
    } else if spec_crc(b.subrange(0, 124)) != spec_u32_from_le_bytes(b.subrange(124, 128)) || (b[20]
        != 1 && b[20] != 2) || !node7_valid(decoded_node7(b)) {
        Err(Error::Corrupt)
    } else {
        Ok(decoded_node7(b))
    }
}

impl Node7 {
    pub fn empty() -> (r: Self)
        ensures
            r == empty_node7(),
    {
        let extents = [Extent { start: 0, sectors: 0 }; MAX_EXTENTS];
        let name = [0u8; NAME_BYTES];
        proof {
            lemma_zero_runs(extents);
            assert(name@ =~= Seq::new(32, |i: int| 0u8));
            lemma_bytes32(name);
        }
        Node7 {
            id: 0,
            parent: 0,
            version: 0,
            length: 0,
            kind: Kind::Empty,
            space: 0,
            extents_used: 0,
            extents,
            name_length: 0,
            name,
            payload_crc32: 0,
        }
    }

    /// Whether this is the canonical empty slot.
    pub fn is_empty(&self) -> (r: bool)
        ensures
            r == (*self == empty_node7()),
    {
        if self.id != 0 || self.parent != 0 || self.version != 0 || self.length != 0 || self.kind
            != Kind::Empty || self.space != 0 || self.extents_used != 0 || self.name_length != 0
            || self.payload_crc32 != 0 {
            return false;
        }
        let zexts = [Extent { start: 0, sectors: 0 }; MAX_EXTENTS];
        proof {
            lemma_zero_runs(zexts);
            assert(zexts@ =~= Seq::new(8, |k: int| Extent { start: 0, sectors: 0 }));
        }
        let mut i: usize = 0;
        while i < MAX_EXTENTS
            invariant
                0 <= i <= MAX_EXTENTS,
                zero_runs() == zexts,
                zexts@ == Seq::new(8, |k: int| Extent { start: 0, sectors: 0 }),
                forall|k: int| 0 <= k < i ==> #[trigger] self.extents@[k] == (Extent { start: 0, sectors: 0 }),
            decreases MAX_EXTENTS - i,
        {
            let run = self.extents[i];
            if run.start != 0 || run.sectors != 0 {
                proof {
                    assert(zero_runs()@[i as int] == (Extent { start: 0, sectors: 0 }));
                }
                return false;
            }
            i = i + 1;
        }
        let zero_name = all_zero(&self.name);
        let z = [0u8; NAME_BYTES];
        proof {
            lemma_zero_runs(self.extents);
            if zero_name {
                assert(self.name@ =~= Seq::new(32, |i: int| 0u8));
                lemma_bytes32(self.name);
            } else {
                let e = spec_bytes32(Seq::new(32, |i: int| 0u8));
                assert(z@ =~= Seq::new(32, |i: int| 0u8));
                lemma_bytes32(z);
                assert(e == z);
            }
        }
        zero_name
    }

    pub fn name(&self) -> (r: &[u8])
        requires
            self.name_length <= 32,
        ensures
            r@ == self.name@.take(self.name_length as int),
    {
        slice_subrange(self.name.as_slice(), 0, self.name_length as usize)
    }

    pub fn runs(&self) -> (r: &[Extent])
        requires
            self.extents_used <= MAX_EXTENTS,
        ensures
            r@ == self.extents@.take(self.extents_used as int),
    {
        slice_subrange(self.extents.as_slice(), 0, self.extents_used as usize)
    }

    /// What one record can prove about itself; every refusal is `Corrupt`.
    pub fn validate(&self) -> (r: Result<(), Error>)
        ensures
            r is Ok <==> node7_valid(*self),
            r is Err ==> r == Err::<(), Error>(Error::Corrupt),
    {
        if self.is_empty() {
            return Ok(());
        }
        if self.id == 0 || self.version == 0 || self.kind == Kind::Empty || !(1 <= self.space
            && self.space <= 4) || self.name_length as usize > NAME_MAX {
            return Err(Error::Corrupt);
        }
        if valid_name(self.name()).is_err() {
            return Err(Error::Corrupt);
        }
        if !is_zero(&self.name, self.name_length as usize, NAME_BYTES) {
            return Err(Error::Corrupt);
        }
        if self.kind == Kind::Directory && (self.length != 0 || self.payload_crc32 != 0
            || self.extents_used != 0) {
            return Err(Error::Corrupt);
        }
        if self.length > MAX_FILE_BYTES {
            return Err(Error::Corrupt);
        }
        check_payload(self.extents.as_slice(), self.extents_used, self.length)
    }

    /// Serialize a record this codec reads back; an invalid record is refused
    /// rather than truncated or persisted in a form its own decoder refuses.
    pub fn encode(&self) -> (r: Result<[u8; NODE_BYTES], Error>)
        ensures
            r is Ok <==> node7_valid(*self),
            r is Err ==> r == Err::<[u8; NODE_BYTES], Error>(Error::Corrupt),
            r matches Ok(b) ==> if *self == empty_node7() {
                zero_range(b@, 0, 128)
            } else {
                encodes_node7(b@, *self)
            },
    {
        self.validate()?;
        if self.is_empty() {
            let b = [0u8; NODE_BYTES];
            return Ok(b);
        }
        let mut b = [0u8; NODE_BYTES];
        put_u32(&mut b, 0, self.id);
        put_u32(&mut b, 4, self.parent);
        put_u64(&mut b, 8, self.version);
        put_u32(&mut b, 16, self.length);
        b[20] = kind_byte(self.kind);
        b[21] = self.space;
        b[22] = self.extents_used;
        b[23] = self.name_length;
        put_runs(&mut b, 24, &self.extents);
        let ghost after_runs = b@;
        put(&mut b, 88, self.name.as_slice());
        put_u32(&mut b, 120, self.payload_crc32);
        let ghost body = b@;
        let checksum = crc(prefix(&b, 124));
        put_u32(&mut b, 124, checksum);
        proof {
            assert(b@.subrange(0, 124) =~= body.subrange(0, 124));
            assert(b@.subrange(0, 4) =~= spec_u32_to_le_bytes(self.id));
            assert(b@.subrange(4, 8) =~= spec_u32_to_le_bytes(self.parent));
            assert(b@.subrange(8, 16) =~= spec_u64_to_le_bytes(self.version));
            assert(b@.subrange(16, 20) =~= spec_u32_to_le_bytes(self.length));
            assert(b@.subrange(88, 120) =~= self.name@);
            assert(b@.subrange(120, 124) =~= spec_u32_to_le_bytes(self.payload_crc32));
            assert(b@.subrange(124, 128) =~= spec_u32_to_le_bytes(checksum));
            assert forall|k: int| 0 <= k < 8 implies #[trigger] holds_run(b@, 24, self.extents@, k) by {
                assert(holds_run(after_runs, 24, self.extents@, k));
                assert(b@.subrange(24 + 8 * k, 24 + 8 * k + 4) =~= after_runs.subrange(
                    24 + 8 * k,
                    24 + 8 * k + 4,
                ));
                assert(b@.subrange(24 + 8 * k + 4, 24 + 8 * k + 8) =~= after_runs.subrange(
                    24 + 8 * k + 4,
                    24 + 8 * k + 8,
                ));
            }
        }
        Ok(b)
    }

    /// Strict record decoding: an all-zero slot is the empty record; otherwise
    /// the checksum, the kind byte and the record's own invariants must hold.
    pub fn decode(b: &[u8; NODE_BYTES]) -> (r: Result<Self, Error>)
        ensures
            r == spec_decode_node7(b@),
    {
        if all_zero(b) {
            return Ok(Self::empty());
        }
        let checksum = get_u32(b, 124);
        if crc(prefix(b, 124)) != checksum {
            return Err(Error::Corrupt);
        }
        let kind = if b[20] == 1 {
            Kind::File
        } else if b[20] == 2 {
            Kind::Directory
        } else {
            return Err(Error::Corrupt);
        };
        let extents = get_runs(b, 24);
        let name: [u8; NAME_BYTES] = take_array(b, 88);
        proof {
            lemma_bytes32(name);
            assert(extents@ =~= runs_seq(b@, 24));
            lemma_runs_from(extents, b@, 24);
        }
        let node = Self {
            id: get_u32(b, 0),
            parent: get_u32(b, 4),
            version: get_u64(b, 8),
            length: get_u32(b, 16),
            kind,
            space: b[21],
            extents_used: b[22],
            extents,
            name_length: b[23],
            name,
            payload_crc32: get_u32(b, 120),
        };
        node.validate()?;
        Ok(node)
    }
}

/// A valid record survives encoding and decoding unchanged.
pub proof fn lemma_node7_roundtrip(b: Seq<u8>, n: Node7)
    requires
        node7_valid(n),
        n != empty_node7(),
        encodes_node7(b, n),
    ensures
        spec_decode_node7(b) == Ok::<Node7, Error>(n),
{
    lemma_le32(n.id);
    lemma_le32(n.parent);
    lemma_le64(n.version);
    lemma_le32(n.length);
    lemma_le32(n.payload_crc32);
    lemma_le32(spec_crc(b.subrange(0, 124)));
    assert forall|k: int| 0 <= k < 8 implies #[trigger] runs_seq(b, 24)[k] == n.extents@[k] by {
        if k < n.extents_used {
            assert(crate::format7::run_live(n.extents@[k]));
        } else {
            assert(is_zero_run(n.extents@[k]));
        }
        lemma_run_roundtrip(b, 24, n.extents@, k);
    }
    assert(runs_seq(b, 24) =~= n.extents@);
    lemma_runs_from(n.extents, b, 24);
    lemma_bytes32(n.name);
    assert(b[20] != 0);
}

} // verus!
