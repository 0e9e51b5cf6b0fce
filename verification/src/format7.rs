//! v7 immutable-content workspace contract: codecs and structural validation.
//!
//! Sectors are 512 bytes from the volume start: header copies for generations 0
//! and 1 in sectors 8 and 9; each generation's node table (64 sectors), map (32)
//! and receipt block (4) from sector 10; payload from sector 210.
use vstd::prelude::*;
use crate::checksum::crc;
use crate::extent::{Extent, DATA_SECTORS, total_sectors};
use crate::Error;

pub mod header;
pub mod node;
pub mod record;
pub mod validation;

pub use header::{Header7, NEXT_EXHAUSTED, NEXT_MIN};
pub use node::{Node7, NAME_BYTES};
pub use record::{Record7, RecordState, receipt_slots};

verus! {

/// Distinct from v5's `RUSTFS1` and v6's `RUSTFS2`.
pub const MAGIC: [u8; 8] = [82, 85, 83, 84, 70, 83, 51, 0];
pub const VERSION: u8 = 7;
pub const LAYOUT: u8 = 1;
pub const SECTOR_BYTES: u64 = 512;
/// One control record per object.
pub const NODE_BYTES: usize = 128;
/// Live objects the control records describe.
pub const NODES: usize = 256;
pub const NODES_SECTORS: u64 = 64;
/// One bit per payload sector.
pub const MAP_WORDS: usize = 2048;
pub const MAP_BYTES: u64 = 16384;
pub const MAP_SECTORS: u64 = 32;
/// Retained durable records.
pub const RETAINED: usize = 8;
/// On-disk size of one durable record.
pub const RECORD_BYTES: usize = 192;
/// Bytes of retained records one generation's receipt block carries.
pub const RECORDS_BYTES: usize = 1536;
pub const RECEIPT_BLOCK_BYTES: usize = 2048;
pub const RECEIPT_RESERVED_BYTES: usize = 512;
pub const RECEIPTS_SECTORS: u64 = 4;
/// Two generations, one of which the header can name after the other is durable.
pub const GENERATIONS: u8 = 2;
pub const GENERATION_SECTORS: u64 = 100;
/// First header sector; the copy for a generation is `HEADER_SECTOR + generation`.
pub const HEADER_SECTOR: u64 = 8;
/// First sector of generation 0's node table.
pub const FIRST_GENERATION_SECTOR: u64 = 10;
/// First payload sector; extents are relative to it.
pub const PAYLOAD_SECTOR: u64 = 210;
pub const PAYLOAD_BYTES: u64 = 67108864;
pub const VOLUME_SECTORS: u64 = 131282;
/// Largest file the payload addresses.
pub const MAX_FILE_BYTES: u32 = 262144;
/// Runs one file, node or retained record may reference.
pub const MAX_EXTENTS: usize = 8;
/// The exact feature set this codec implements.
pub const FEATURE_EXTENT_PAYLOAD: u32 = 1;
pub const FEATURE_EXTENT_SNAPSHOT: u32 = 2;
pub const FEATURE_SCOPED_RECORDS: u32 = 4;
pub const FEATURES: u32 = 7;

/// First sector of a generation's header copy; a larger value wraps.
pub fn header_sector(generation: u8) -> (r: u64)
    ensures
        r == HEADER_SECTOR + (generation % GENERATIONS),
{
    HEADER_SECTOR + (generation % GENERATIONS) as u64
}

/// First sector of a generation's node table.
pub fn nodes_sector(generation: u8) -> (r: u64)
    ensures
        r == FIRST_GENERATION_SECTOR + (generation % GENERATIONS) * GENERATION_SECTORS,
{
    FIRST_GENERATION_SECTOR + ((generation % GENERATIONS) as u64) * GENERATION_SECTORS
}

/// First sector of a generation's free-space map.
pub fn map_sector(generation: u8) -> (r: u64)
    ensures
        r == FIRST_GENERATION_SECTOR + (generation % GENERATIONS) * GENERATION_SECTORS
            + NODES_SECTORS,
{
    nodes_sector(generation) + NODES_SECTORS
}

/// First sector of a generation's receipt block.
pub fn receipts_sector(generation: u8) -> (r: u64)
    ensures
        r == FIRST_GENERATION_SECTOR + (generation % GENERATIONS) * GENERATION_SECTORS
            + NODES_SECTORS + MAP_SECTORS,
{
    map_sector(generation) + MAP_SECTORS
}

/// The CRC-32/IEEE aggregate a header names for a generation region.
pub fn aggregate(bytes: &[u8]) -> (r: u32)
    ensures
        r == crate::checksum::spec_crc(bytes@),
{
    crc(bytes)
}

} // verus!

verus! {

/// Payload geometry shared by nodes and retained records: the first `used` runs
/// are non-empty, in bounds and pairwise disjoint, the runs after them are zero,
/// and the used runs total exactly the sectors `length` needs.
pub open spec fn payload_ok(runs: Seq<Extent>, used: int, length: int) -> bool {
    &&& used <= runs.len()
    &&& length <= MAX_FILE_BYTES
    &&& forall|k: int| 0 <= k < used ==> #[trigger] run_live(runs[k])
    &&& forall|i: int, j: int| 0 <= i < j < used ==> !#[trigger] overlap(runs[i], runs[j])
    &&& forall|k: int| used <= k < runs.len() ==> #[trigger] is_zero_run(runs[k])
    &&& total_sectors(runs.take(used)) == (length + 511) / 512
}

/// A non-empty run inside the payload region.
pub open spec fn run_live(run: Extent) -> bool {
    run.sectors > 0 && run.start + run.sectors <= DATA_SECTORS
}

/// Two runs share a sector.
pub open spec fn overlap(a: Extent, b: Extent) -> bool {
    a.start < b.spec_end() && b.start < a.spec_end()
}

/// The zero run of an unused slot.
pub open spec fn is_zero_run(run: Extent) -> bool {
    run.start == 0 && run.sectors == 0
}

/// `Ok` exactly when the geometry is sound; every refusal is `Corrupt`.
pub fn check_payload(runs: &[Extent], used: u8, length: u32) -> (r: Result<(), Error>)
    ensures
        r is Ok <==> payload_ok(runs@, used as int, length as int),
        r is Err ==> r == Err::<(), Error>(Error::Corrupt),
{
    let n = used as usize;
    if n > runs.len() || length > MAX_FILE_BYTES {
        return Err(Error::Corrupt);
    }
    let mut i: usize = 0;
    while i < n
        invariant
            n == used as usize,
            n <= runs@.len(),
            0 <= i <= n,
            forall|k: int| 0 <= k < i ==> #[trigger] run_live(runs@[k]),
            length <= MAX_FILE_BYTES,
        decreases n - i,
    {
        let run = runs[i];
        assert(run == runs@[i as int]);
        if run.sectors == 0 || run.start > DATA_SECTORS || run.sectors > DATA_SECTORS - run.start {
            assert(!run_live(runs@[i as int]));
            return Err(Error::Corrupt);
        }
        i = i + 1;
    }
    let mut i: usize = 0;
    while i < n
        invariant
            n == used as usize,
            n <= runs@.len(),
            0 <= i <= n,
            length <= MAX_FILE_BYTES,
            forall|k: int| 0 <= k < n ==> #[trigger] run_live(runs@[k]),
            forall|a: int, b: int| 0 <= a < i && a < b < n ==> !#[trigger] overlap(runs@[a], runs@[b]),
        decreases n - i,
    {
        let run = runs[i];
        assert(run_live(runs@[i as int]));
        let mut j: usize = i + 1;
        while j < n
            invariant
            n == used as usize,
                n <= runs@.len(),
                0 <= i < n,
                i + 1 <= j <= n,
                run == runs@[i as int],
                run_live(run),
                length <= MAX_FILE_BYTES,
                forall|k: int| 0 <= k < n ==> #[trigger] run_live(runs@[k]),
                forall|a: int, b: int| 0 <= a < i && a < b < n ==> !#[trigger] overlap(runs@[a], runs@[b]),
                forall|b: int| i < b < j ==> !#[trigger] overlap(runs@[i as int], runs@[b]),
            decreases n - j,
        {
            let other = runs[j];
            assert(other == runs@[j as int]);
            assert(run_live(other));
            if run.start < other.start + other.sectors && other.start < run.start + run.sectors {
                assert(overlap(runs@[i as int], runs@[j as int]));
                return Err(Error::Corrupt);
            }
            j = j + 1;
        }
        i = i + 1;
    }
    let mut i: usize = n;
    while i < runs.len()
        invariant
            n == used as usize,
            n <= i <= runs@.len(),
            length <= MAX_FILE_BYTES,
            forall|k: int| 0 <= k < n ==> #[trigger] run_live(runs@[k]),
            forall|a: int, b: int| 0 <= a < b < n ==> !#[trigger] overlap(runs@[a], runs@[b]),
            forall|k: int| n <= k < i ==> #[trigger] is_zero_run(runs@[k]),
        decreases runs@.len() - i,
    {
        let run = runs[i];
        assert(run == runs@[i as int]);
        if run.start != 0 || run.sectors != 0 {
            assert(!is_zero_run(runs@[i as int]));
            return Err(Error::Corrupt);
        }
        i = i + 1;
    }
    let mut sectors: u64 = 0;
    let mut i: usize = 0;
    while i < n
        invariant
            n == used as usize,
            n <= runs@.len(),
            0 <= i <= n,
            length <= MAX_FILE_BYTES,
            forall|k: int| 0 <= k < n ==> #[trigger] run_live(runs@[k]),
            forall|a: int, b: int| 0 <= a < b < n ==> !#[trigger] overlap(runs@[a], runs@[b]),
            forall|k: int| n <= k < runs@.len() ==> #[trigger] is_zero_run(runs@[k]),
            sectors == total_sectors(runs@.take(i as int)),
            sectors <= i * DATA_SECTORS,
        decreases n - i,
    {
        proof {
            crate::extent::lemma_total_sectors_prefix(runs@, i as int);
        }
        let run = runs[i];
        assert(run == runs@[i as int]);
        assert(run_live(runs@[i as int]));
        assert(sectors + run.sectors <= (i + 1) * DATA_SECTORS);
        sectors = sectors + run.sectors;
        i = i + 1;
    }
    if sectors != (length as u64 + 511) / 512 {
        return Err(Error::Corrupt);
    }
    Ok(())
}

} // verus!
