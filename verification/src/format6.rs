//! v6 structures: widened control records and an extent-addressed payload.
//!
//! A 128-byte node with a 32-bit length and up to `EXTENTS_PER_FILE` runs, and a
//! header naming the region geometry and the checksums of the structures stored
//! outside it. Pure encoding and decoding.
use vstd::prelude::*;
use vstd::bytes::*;
use vstd::slice::slice_subrange;
use crate::checksum::{crc, spec_crc};
use crate::codec::{
    zero_range, put, put_u32, put_u64, get_u32, get_u64, is_zero, clear, prefix, put_runs,
    get_runs, holds_runs, holds_run, spec_run_at, spec_runs_from, spec_bytes32, lemma_bytes32,
    lemma_runs_from, lemma_run_roundtrip, zero_runs, lemma_zero_runs, lemma_le32, lemma_le64, zeroed, matches_at, copy_zeroed,
};
use crate::extent::{DATA_SECTORS, EXTENTS_PER_FILE, Extent, total_sectors, OBJECTS_V6};
use crate::namespace::{Kind, kind_byte, kind_code};
use crate::Error;

verus! {

/// Distinct from v5's `RUSTFS1`, so a v5 volume is never misread as v6.
pub const MAGIC: [u8; 8] = [82, 85, 83, 84, 70, 83, 50, 0];
pub const VERSION: u8 = 6;
pub const SECTOR_BYTES: u64 = 512;
/// One control record.
pub const NODE_BYTES: usize = 128;
/// Two generations of node table, map and receipt block alternate.
pub const GENERATIONS: u8 = 2;
/// The single header sector.
pub const HEADER_SECTOR: u64 = 8;
/// Sectors one generation's node table spans.
pub const NODES_SECTORS: u64 = 64;
/// Bytes and sectors one generation's free-space map spans.
pub const MAP_BYTES: u64 = 16384;
pub const MAP_SECTORS: u64 = 32;
/// Sectors one generation's receipt block spans.
pub const RECEIPTS_SECTORS: u64 = 2;
/// Sectors one generation spans.
pub const GENERATION_SECTORS: u64 = 98;
/// First sector of generation 0.
pub const FIRST_GENERATION_SECTOR: u64 = 9;
/// First sector of the payload region; extents are relative to it.
pub const PAYLOAD_SECTOR: u64 = 205;
/// Total sectors the v6 volume occupies, payload included.
pub const VOLUME_SECTORS: u64 = 131277;

/// First sector of a generation's node table; a larger value wraps.
pub fn nodes_sector(generation: u8) -> (r: u64)
    ensures
        r == FIRST_GENERATION_SECTOR + (generation % GENERATIONS) * GENERATION_SECTORS,
{
    FIRST_GENERATION_SECTOR + ((generation % GENERATIONS) as u64) * GENERATION_SECTORS
}

/// First sector of a generation's free-space map.
pub fn map_sector(generation: u8) -> (r: u64)
    ensures
        r == FIRST_GENERATION_SECTOR + (generation % GENERATIONS) * GENERATION_SECTORS
            + NODES_SECTORS,
{
    nodes_sector(generation) + NODES_SECTORS
}

/// First sector of a generation's receipt block.
pub fn receipts_sector(generation: u8) -> (r: u64)
    ensures
        r == FIRST_GENERATION_SECTOR + (generation % GENERATIONS) * GENERATION_SECTORS
            + NODES_SECTORS + MAP_SECTORS,
{
    map_sector(generation) + MAP_SECTORS
}

/// A v6 control record. `length` is 32 bits, so the 256 KiB file limit is
/// structural rather than a policy check against a 16-bit field.
#[derive(Clone, Copy, Debug)]
pub struct Node6 {
    pub id: u32,
    pub parent: u32,
    pub version: u64,
    pub length: u32,
    pub kind: Kind,
    pub space: u8,
    pub extents: [Extent; EXTENTS_PER_FILE],
    pub extents_used: u8,
    pub name: [u8; 32],
    pub name_length: u8,
}

/// The empty slot.
pub open spec fn empty_node6() -> Node6 {
    Node6 {
        id: 0,
        parent: 0,
        version: 0,
        length: 0,
        kind: Kind::Empty,
        space: 0,
        extents: zero_runs(),
        extents_used: 0,
        name: spec_bytes32(Seq::new(32, |i: int| 0u8)),
        name_length: 0,
    }
}

/// A node whose bytes decode back to it: at most eight runs, each inside the
/// region, unused runs zero, and a length its runs can hold.
pub open spec fn node6_storable(n: Node6) -> bool {
    &&& n.extents_used <= EXTENTS_PER_FILE
    &&& forall|k: int|
        0 <= k < 8 ==> #[trigger] n.extents@[k].start + n.extents@[k].sectors <= DATA_SECTORS
    &&& forall|k: int|
        n.extents_used <= k < 8 ==> #[trigger] n.extents@[k] == (Extent { start: 0, sectors: 0 })
    &&& n.length <= total_sectors(n.extents@.take(n.extents_used as int)) * SECTOR_BYTES
}

/// `b` is the 128-byte image of `n`, closed by the CRC of its first 124 bytes.
pub open spec fn encodes_node6(b: Seq<u8>, n: Node6) -> bool {
    &&& b.len() == 128
    &&& b.subrange(0, 4) == spec_u32_to_le_bytes(n.id)
    &&& b.subrange(4, 8) == spec_u32_to_le_bytes(n.parent)
    &&& b.subrange(8, 16) == spec_u64_to_le_bytes(n.version)
    &&& b.subrange(16, 20) == spec_u32_to_le_bytes(n.length)
    &&& b[20] == kind_code(n.kind)
    &&& b[21] == n.space
    &&& b[22] == n.extents_used
    &&& b[23] == 0
    &&& holds_runs(b, 24, n.extents@)
    &&& b.subrange(88, 120) == n.name@
    &&& b[120] == n.name_length
    &&& zero_range(b, 121, 124)
    &&& b.subrange(124, 128) == spec_u32_to_le_bytes(spec_crc(b.subrange(0, 124)))
}

/// The stored runs of a node image.
pub open spec fn node6_runs(b: Seq<u8>) -> Seq<Extent> {
    Seq::new(8, |k: int| spec_run_at(b, 24 + 8 * k))
}

/// Every run lies inside the payload region.
pub open spec fn runs_in_region(runs: Seq<Extent>) -> bool {
    forall|k: int| 0 <= k < 8 ==> #[trigger] runs[k].start + runs[k].sectors <= DATA_SECTORS
}

/// Every run from `used` on is the zero run.
pub open spec fn unused_zero(runs: Seq<Extent>, used: int) -> bool {
    forall|k: int| used <= k < 8 ==> #[trigger] runs[k] == (Extent { start: 0, sectors: 0 })
}

/// What a stored node image decodes to; every refusal is `Corrupt`.
pub open spec fn spec_decode_node6(b: Seq<u8>) -> Result<Node6, Error> {
    let used = b[22] as int;
    let runs = node6_runs(b);
    let length = spec_u32_from_le_bytes(b.subrange(16, 20));
    if b.len() != 128 || spec_crc(b.subrange(0, 124)) != spec_u32_from_le_bytes(
        b.subrange(124, 128),
    ) || !zero_range(b, 121, 124) || b[20] > 2 || used > 8 || b[23] != 0 || !runs_in_region(runs)
        || !unused_zero(runs, used) || length
        > total_sectors(runs.take(used)) * SECTOR_BYTES {
        Err(Error::Corrupt)
    } else {
        Ok(
            Node6 {
                id: spec_u32_from_le_bytes(b.subrange(0, 4)),
                parent: spec_u32_from_le_bytes(b.subrange(4, 8)),
                version: spec_u64_from_le_bytes(b.subrange(8, 16)),
                length,
                kind: if b[20] == 0 {
                    Kind::Empty
                } else if b[20] == 1 {
                    Kind::File
                } else {
                    Kind::Directory
                },
                space: b[21],
                extents: spec_runs_from(b, 24),
                extents_used: b[22],
                name: spec_bytes32(b.subrange(88, 120)),
                name_length: b[120],
            },
        )
    }
}

/// Sum of the sectors of the first `used` runs.
fn used_sectors(runs: &[Extent; 8], used: usize) -> (r: u64)
    requires
        used <= 8,
        forall|k: int| 0 <= k < 8 ==> #[trigger] runs@[k].start + runs@[k].sectors <= DATA_SECTORS,
    ensures
        r == total_sectors(runs@.take(used as int)),
        r <= used * DATA_SECTORS,
{
    let mut sum: u64 = 0;
    let mut i: usize = 0;
    while i < used
        invariant
            used <= 8,
            0 <= i <= used,
            forall|k: int| 0 <= k < 8 ==> #[trigger] runs@[k].start + runs@[k].sectors <= DATA_SECTORS,
            sum == total_sectors(runs@.take(i as int)),
            sum <= i * DATA_SECTORS,
        decreases used - i,
    {
        proof {
            crate::extent::lemma_total_sectors_prefix(runs@, i as int);
        }
        let run = runs[i];
        assert(run.start + run.sectors <= DATA_SECTORS);
        sum = sum + run.sectors;
        i = i + 1;
    }
    sum
}

impl Node6 {
    pub fn empty() -> (r: Self)
        ensures
            r == empty_node6(),
    {
        let extents = [Extent { start: 0, sectors: 0 }; EXTENTS_PER_FILE];
        let name = [0u8; 32];
        proof {
            lemma_bytes32(name);
            assert(name@ =~= Seq::new(32, |i: int| 0u8));
            lemma_zero_runs(extents);
        }
        Node6 {
            id: 0,
            parent: 0,
            version: 0,
            length: 0,
            kind: Kind::Empty,
            space: 0,
            extents,
            extents_used: 0,
            name,
            name_length: 0,
        }
    }

    /// The 128-byte record, closed by its CRC.
    pub fn encode(&self) -> (r: [u8; NODE_BYTES])
        ensures
            encodes_node6(r@, *self),
    {
        let mut b = [0u8; NODE_BYTES];
        put_u32(&mut b, 0, self.id);
        put_u32(&mut b, 4, self.parent);
        put_u64(&mut b, 8, self.version);
        put_u32(&mut b, 16, self.length);
        b[20] = kind_byte(self.kind);
        b[21] = self.space;
        b[22] = self.extents_used;
        let ghost before_runs = b@;
        put_runs(&mut b, 24, &self.extents);
        let ghost after_runs = b@;
        put(&mut b, 88, self.name.as_slice());
        b[120] = self.name_length;
        let ghost body = b@;
        let checksum = crc(prefix(&b, 124));
        put_u32(&mut b, 124, checksum);
        proof {
            assert(b@.subrange(0, 124) =~= body.subrange(0, 124));
            assert(b@.subrange(0, 4) =~= spec_u32_to_le_bytes(self.id));
            assert(b@.subrange(4, 8) =~= spec_u32_to_le_bytes(self.parent));
            assert(b@.subrange(8, 16) =~= spec_u64_to_le_bytes(self.version));
            assert(b@.subrange(16, 20) =~= spec_u32_to_le_bytes(self.length));
            assert(b@.subrange(88, 120) =~= self.name@);
            assert(b@.subrange(124, 128) =~= spec_u32_to_le_bytes(checksum));
            assert forall|k: int| 0 <= k < 8 implies #[trigger] holds_run(b@, 24, self.extents@, k) by {
                assert(holds_run(after_runs, 24, self.extents@, k));
                assert(b@.subrange(24 + 8 * k, 24 + 8 * k + 4) =~= after_runs.subrange(
                    24 + 8 * k,
                    24 + 8 * k + 4,
                ));
                assert(b@.subrange(24 + 8 * k + 4, 24 + 8 * k + 8) =~= after_runs.subrange(
                    24 + 8 * k + 4,
                    24 + 8 * k + 8,
                ));
            }
        }
        b
    }

    /// Strict decoding of one record.
    pub fn decode(b: &[u8; NODE_BYTES]) -> (r: Result<Self, Error>)
        ensures
            r == spec_decode_node6(b@),
            r matches Ok(n) ==> node6_storable(n),
    {
        let checksum = get_u32(b, 124);
        if crc(prefix(b, 124)) != checksum || !is_zero(b, 121, 124) {
            return Err(Error::Corrupt);
        }
        let kind = if b[20] == 0 {
            Kind::Empty
        } else if b[20] == 1 {
            Kind::File
        } else if b[20] == 2 {
            Kind::Directory
        } else {
            return Err(Error::Corrupt);
        };
        let extents_used = b[22];
        if extents_used > EXTENTS_PER_FILE as u8 {
            return Err(Error::Corrupt);
        }
        if b[23] != 0 {
            return Err(Error::Corrupt);
        }
        let extents = get_runs(b, 24);
        let ghost runs = node6_runs(b@);
        assert(extents@ =~= runs);
        let mut i: usize = 0;
        while i < 8
            invariant
                0 <= i <= 8,
                extents@ == runs,
                runs == node6_runs(b@),
                extents_used == b@[22],
                extents_used <= 8,
                b@[20] <= 2,
                b@[23] == 0,
                zero_range(b@, 121, 124),
                spec_crc(b@.subrange(0, 124)) == spec_u32_from_le_bytes(b@.subrange(124, 128)),

                forall|k: int| 0 <= k < i ==> #[trigger] runs[k].start + runs[k].sectors <= DATA_SECTORS,
            decreases 8 - i,
        {
            let e = extents[i];
            assert(e == runs[i as int]);
            if e.start + e.sectors > DATA_SECTORS {
                assert(!runs_in_region(runs));
                return Err(Error::Corrupt);
            }
            i = i + 1;
        }
        let mut i: usize = extents_used as usize;
        while i < 8
            invariant
                extents_used <= i <= 8,
                extents@ == runs,
                runs_in_region(runs),
                runs == node6_runs(b@),
                extents_used == b@[22],
                extents_used <= 8,
                b@[20] <= 2,
                b@[23] == 0,
                zero_range(b@, 121, 124),
                spec_crc(b@.subrange(0, 124)) == spec_u32_from_le_bytes(b@.subrange(124, 128)),

                forall|k: int| extents_used <= k < i ==> #[trigger] runs[k] == (Extent { start: 0, sectors: 0 }),
            decreases 8 - i,
        {
            let e = extents[i];
            assert(e == runs[i as int]);
            if e.sectors != 0 || e.start != 0 {
                assert(!unused_zero(runs, extents_used as int));
                return Err(Error::Corrupt);
            }
            i = i + 1;
        }
        let length = get_u32(b, 16);
        let sectors = used_sectors(&extents, extents_used as usize);
        if length as u64 > sectors * SECTOR_BYTES {
            return Err(Error::Corrupt);
        }
        let name: [u8; 32] = [0u8; 32];
        let mut name = name;
        put(&mut name, 0, slice_subrange(b.as_slice(), 88, 120));
        proof {
            assert(name@ =~= b@.subrange(88, 120));
            lemma_bytes32(name);
            lemma_runs_from(extents, b@, 24);
        }
        Ok(
            Node6 {
                id: get_u32(b, 0),
                parent: get_u32(b, 4),
                version: get_u64(b, 8),
                length,
                kind,
                space: b[21],
                extents,
                extents_used,
                name,
                name_length: b[120],
            },
        )
    }

    /// The used runs.
    pub fn runs(&self) -> (r: &[Extent])
        requires
            self.extents_used <= EXTENTS_PER_FILE,
        ensures
            r@ == self.extents@.take(self.extents_used as int),
    {
        slice_subrange(self.extents.as_slice(), 0, self.extents_used as usize)
    }
}

/// A storable node survives encoding and decoding unchanged.
pub proof fn lemma_node6_roundtrip(b: Seq<u8>, n: Node6)
    requires
        encodes_node6(b, n),
        node6_storable(n),
    ensures
        spec_decode_node6(b) == Ok::<Node6, Error>(n),
{
    lemma_auto_spec_u32_to_from_le_bytes();
    lemma_auto_spec_u64_to_from_le_bytes();
    let runs = node6_runs(b);
    assert forall|k: int| 0 <= k < 8 implies #[trigger] runs[k] == n.extents@[k] by {
        assert(n.extents@[k].start + n.extents@[k].sectors <= DATA_SECTORS);
        lemma_run_roundtrip(b, 24, n.extents@, k);
    }
    assert(runs =~= n.extents@);
    lemma_runs_from(n.extents, b, 24);
    lemma_bytes32(n.name);
    lemma_le32(n.id);
    lemma_le32(n.parent);
    lemma_le64(n.version);
    lemma_le32(n.length);
    lemma_le32(spec_crc(b.subrange(0, 124)));
}

} // verus!

verus! {

/// The v6 header: region geometry, the sequence, the generation it publishes
/// and the checksums of that generation's structures.
#[derive(Clone, Copy, Debug, PartialEq, Eq, Structural)]
pub struct Header6 {
    pub sequence: u64,
    pub objects: u32,
    pub nodes_checksum: u32,
    pub map_checksum: u32,
    pub receipts_checksum: u32,
    pub active: u8,
}

/// `b` is the sector image of `h`.
pub open spec fn encodes_header6(b: Seq<u8>, h: Header6) -> bool {
    &&& b.len() == 512
    &&& b.subrange(0, 8) == MAGIC@
    &&& b[8] == VERSION
    &&& b[9] == 0 && b[10] == 0 && b[11] == 2
    &&& b.subrange(12, 20) == spec_u64_to_le_bytes(h.sequence)
    &&& b.subrange(20, 24) == spec_u32_to_le_bytes(h.objects)
    &&& b.subrange(24, 28) == spec_u32_to_le_bytes(NODE_BYTES as u32)
    &&& b.subrange(28, 32) == spec_u32_to_le_bytes(DATA_SECTORS as u32)
    &&& b.subrange(32, 36) == spec_u32_to_le_bytes(h.nodes_checksum)
    &&& b.subrange(36, 40) == spec_u32_to_le_bytes(h.map_checksum)
    &&& b.subrange(40, 44) == spec_u32_to_le_bytes(h.receipts_checksum)
    &&& b[44] == h.active
    &&& zero_range(b, 45, 48)
    &&& zero_range(b, 52, 512)
    &&& b.subrange(48, 52) == spec_u32_to_le_bytes(spec_crc(zeroed(b, 48, 52)))
}

/// What a header sector decodes to; every refusal is `Corrupt`.
pub open spec fn spec_decode_header6(b: Seq<u8>) -> Result<Header6, Error> {
    if b.len() != 512 || b.subrange(0, 8) != MAGIC@ || b[8] != VERSION || b[9] != 0 || b[10] != 0
        || b[11] != 2 || b[44] >= GENERATIONS || !zero_range(b, 45, 48) || !zero_range(b, 52, 512)
        || spec_u32_from_le_bytes(b.subrange(20, 24)) != OBJECTS_V6 || spec_u32_from_le_bytes(
        b.subrange(24, 28),
    ) != NODE_BYTES || spec_u32_from_le_bytes(b.subrange(28, 32)) != DATA_SECTORS || spec_crc(
        zeroed(b, 48, 52),
    ) != spec_u32_from_le_bytes(b.subrange(48, 52)) {
        Err(Error::Corrupt)
    } else {
        Ok(
            Header6 {
                sequence: spec_u64_from_le_bytes(b.subrange(12, 20)),
                objects: spec_u32_from_le_bytes(b.subrange(20, 24)),
                nodes_checksum: spec_u32_from_le_bytes(b.subrange(32, 36)),
                map_checksum: spec_u32_from_le_bytes(b.subrange(36, 40)),
                receipts_checksum: spec_u32_from_le_bytes(b.subrange(40, 44)),
                active: b[44],
            },
        )
    }
}

impl Header6 {
    /// The header of a volume that has never been committed.
    pub open spec fn spec_initial() -> Header6 {
        Header6 {
            sequence: 1,
            objects: OBJECTS_V6 as u32,
            nodes_checksum: 0,
            map_checksum: 0,
            receipts_checksum: 0,
            active: 0,
        }
    }

    /// A volume that has never been committed.
    pub fn initial() -> (r: Self)
        ensures
            r == Self::spec_initial(),
    {
        Self {
            sequence: 1,
            objects: OBJECTS_V6 as u32,
            nodes_checksum: 0,
            map_checksum: 0,
            receipts_checksum: 0,
            active: 0,
        }
    }

    pub fn encode(&self) -> (r: [u8; 512])
        ensures
            encodes_header6(r@, *self),
    {
        let mut b = [0u8; 512];
        let magic = MAGIC;
        put(&mut b, 0, magic.as_slice());
        b[8] = VERSION;
        b[11] = 2;
        put_u64(&mut b, 12, self.sequence);
        put_u32(&mut b, 20, self.objects);
        put_u32(&mut b, 24, NODE_BYTES as u32);
        put_u32(&mut b, 28, DATA_SECTORS as u32);
        put_u32(&mut b, 32, self.nodes_checksum);
        put_u32(&mut b, 36, self.map_checksum);
        put_u32(&mut b, 40, self.receipts_checksum);
        b[44] = self.active;
        let ghost body = b@;
        let checksum = crc(b.as_slice());
        put_u32(&mut b, 48, checksum);
        proof {
            assert(zeroed(b@, 48, 52) =~= body);
            assert(b@.subrange(0, 8) =~= MAGIC@);
            assert(b@.subrange(12, 20) =~= spec_u64_to_le_bytes(self.sequence));
            assert(b@.subrange(20, 24) =~= spec_u32_to_le_bytes(self.objects));
            assert(b@.subrange(24, 28) =~= spec_u32_to_le_bytes(NODE_BYTES as u32));
            assert(b@.subrange(28, 32) =~= spec_u32_to_le_bytes(DATA_SECTORS as u32));
            assert(b@.subrange(32, 36) =~= spec_u32_to_le_bytes(self.nodes_checksum));
            assert(b@.subrange(36, 40) =~= spec_u32_to_le_bytes(self.map_checksum));
            assert(b@.subrange(40, 44) =~= spec_u32_to_le_bytes(self.receipts_checksum));
            assert(b@.subrange(48, 52) =~= spec_u32_to_le_bytes(checksum));
        }
        b
    }

    pub fn decode(b: &[u8; 512]) -> (r: Result<Self, Error>)
        ensures
            r == spec_decode_header6(b@),
    {
        let checksum = get_u32(b, 48);
        let body = copy_zeroed(b, 48, 52);
        let magic = MAGIC;
        if !matches_at(b, 0, magic.as_slice()) || b[8] != VERSION || b[9] != 0 || b[10] != 0
            || b[11] != 2 || b[44] >= GENERATIONS || !is_zero(b, 45, 48) || !is_zero(b, 52, 512)
            || get_u32(b, 20) as usize != OBJECTS_V6 || get_u32(b, 24) as usize != NODE_BYTES
            || get_u32(b, 28) as u64 != DATA_SECTORS || crc(body.as_slice()) != checksum {
            return Err(Error::Corrupt);
        }
        Ok(
            Header6 {
                sequence: get_u64(b, 12),
                objects: get_u32(b, 20),
                nodes_checksum: get_u32(b, 32),
                map_checksum: get_u32(b, 36),
                receipts_checksum: get_u32(b, 40),
                active: b[44],
            },
        )
    }
}

/// A header with the fixed geometry and a valid generation survives encoding
/// and decoding unchanged.
pub proof fn lemma_header6_roundtrip(b: Seq<u8>, h: Header6)
    requires
        encodes_header6(b, h),
        h.objects == OBJECTS_V6,
        h.active < GENERATIONS,
    ensures
        spec_decode_header6(b) == Ok::<Header6, Error>(h),
{
    lemma_le64(h.sequence);
    lemma_le32(h.objects);
    lemma_le32(NODE_BYTES as u32);
    lemma_le32(DATA_SECTORS as u32);
    lemma_le32(h.nodes_checksum);
    lemma_le32(h.map_checksum);
    lemma_le32(h.receipts_checksum);
    lemma_le32(spec_crc(zeroed(b, 48, 52)));
}

} // verus!
