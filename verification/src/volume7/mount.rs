//! Header recovery and full read-only verification of one generation.
use vstd::prelude::*;
use vstd::bytes::spec_u64_from_le_bytes;
use crate::checksum::{crc_fold, crc_update, spec_crc, lemma_crc_fold_append};
use crate::codec::{zero_range, all_zero, get_u64, put, take_array, slices_equal, written};
use crate::extent::{Extent, MAP_WORDS, DATA_SECTORS, EXTENTS_PER_FILE, total_sectors};
use crate::format::sectors_from;
use crate::format7::{
    Header7, NODES, Node7, RETAINED, Record7, PAYLOAD_SECTOR, NODE_BYTES, RECEIPT_BLOCK_BYTES,
    FIRST_GENERATION_SECTOR, GENERATION_SECTORS, HEADER_SECTOR, NEXT_MIN, header_sector, nodes_sector,
    map_sector, receipts_sector, receipt_slots, run_live, is_zero_run,
};
use crate::format7::header::spec_decode_header7;
use crate::format7::node::{spec_decode_node7, node7_valid, empty_node7};
use crate::format7::record::{spec_slot7, record7_valid};
use crate::format7::validation::{generation_valid7, validate_generation, receipt_rules7, node_rules7};
use crate::namespace::Kind;
use crate::storage::Disk;
use crate::volume6::{payload_byte, read_runs, least, runs_present};
use crate::volume7::Volume7;
use crate::volume7::publication::region_present7;
use crate::Error;

verus! {

/// The copy in a physical header slot, if it decodes and names that slot.
pub open spec fn candidate7(b: Seq<u8>, slot: u8) -> Option<Header7> {
    match spec_decode_header7(b) {
        Ok(h) => if h.generation == slot {
            Some(h)
        } else {
            None
        },
        Err(_) => None,
    }
}

/// A freshly provisioned pair: the first generation's first header and an
/// all-zero second copy.
pub open spec fn clean_genesis7(h: Header7, other: Seq<u8>) -> bool {
    &&& h.generation == 0
    &&& h.sequence == 1
    &&& h.epoch == 1
    &&& h.next == NEXT_MIN
    &&& zero_range(other, 0, 512)
}

/// Which header the two copies select, and whether a nonzero copy was
/// ignored. Two valid copies must be one lineage, adjacent sequences, and
/// neither epoch nor watermark may go back; the newer one wins.
pub open spec fn select7(c0: Seq<u8>, c1: Seq<u8>) -> Result<(Header7, bool), Error> {
    match (candidate7(c0, 0), candidate7(c1, 1)) {
        (None, None) => Err(Error::Corrupt),
        (Some(h), None) => Ok((h, !clean_genesis7(h, c1))),
        (None, Some(h)) => Ok((h, true)),
        (Some(l), Some(r)) => {
            if l.lineage != r.lineage || l.generation == r.generation || l.sequence == r.sequence {
                Err(Error::Corrupt)
            } else {
                let older = if l.sequence < r.sequence { l } else { r };
                let newer = if l.sequence < r.sequence { r } else { l };
                if newer.sequence - older.sequence != 1 || newer.epoch < older.epoch || newer.next < older.next {
                    Err(Error::Corrupt)
                } else {
                    Ok((newer, false))
                }
            }
        },
    }
}

fn candidate(bytes: &[u8; 512], slot: u8) -> (r: Option<Header7>)
    ensures
        r == candidate7(bytes@, slot),
{
    match Header7::decode(bytes) {
        Ok(h) => if h.generation == slot {
            Some(h)
        } else {
            None
        },
        Err(_) => None,
    }
}

fn clean_genesis(header: &Header7, other: &[u8; 512]) -> (r: bool)
    ensures
        r == clean_genesis7(*header, other@),
{
    header.generation == 0 && header.sequence == Header7::INITIAL_SEQUENCE && header.epoch == Header7::INITIAL_EPOCH
        && header.next == NEXT_MIN && all_zero(other)
}

/// Choose the header the two copies select.
pub fn select_header(c0: &[u8; 512], c1: &[u8; 512]) -> (r: Result<(Header7, bool), Error>)
    ensures
        r == select7(c0@, c1@),
{
    let left = candidate(c0, 0);
    let right = candidate(c1, 1);
    match (left, right) {
        (None, None) => Err(Error::Corrupt),
        (Some(h), None) => Ok((h, !clean_genesis(&h, c1))),
        (None, Some(h)) => Ok((h, true)),
        (Some(l), Some(r)) => {
            let same = slices_equal(l.lineage.as_slice(), r.lineage.as_slice());
            proof {
                if same {
                    crate::codec::lemma_array_view_eq(l.lineage, r.lineage);
                }
            }
            if !same || l.generation == r.generation || l.sequence == r.sequence {
                return Err(Error::Corrupt);
            }
            let older = if l.sequence < r.sequence { l } else { r };
            let newer = if l.sequence < r.sequence { r } else { l };
            if newer.sequence - older.sequence != 1 || newer.epoch < older.epoch || newer.next < older.next {
                return Err(Error::Corrupt);
            }
            Ok((newer, false))
        },
    }
}

/// The first `length` bytes a file's runs hold.
pub open spec fn content7(c: Map<u64, Seq<u8>>, runs: Seq<Extent>, length: int) -> Seq<u8> {
    Seq::new(length as nat, |p: int| payload_byte(c, PAYLOAD_SECTOR, runs, p))
}

/// The bytes a record's runs hold checksum to `expected`.
pub open spec fn payload_sound7(c: Map<u64, Seq<u8>>, extents: [Extent; EXTENTS_PER_FILE], used: u8, length: u32, expected: u32) -> bool {
    spec_crc(content7(c, extents@.take(used as int), length as int)) == expected
}

/// Every live file and every retained record checksums as it claims.
pub open spec fn payloads_sound7(c: Map<u64, Seq<u8>>, nodes: Seq<Node7>, records: Seq<Option<Record7>>) -> bool {
    &&& forall|i: int| 0 <= i < NODES ==> (#[trigger] nodes[i]).kind == Kind::File ==> payload_sound7(c, nodes[i].extents, nodes[i].extents_used, nodes[i].length, nodes[i].payload_crc32)
    &&& forall|k: int| 0 <= k < RETAINED ==> (#[trigger] records[k] matches Some(r) ==> payload_sound7(c, r.extents, r.extents_used, r.length, r.payload_crc32))
}

/// Stream a payload through the checksum; a mismatch is `Corrupt`.
fn verify_payload<D: Disk>(disk: &mut D, extents: &[Extent; EXTENTS_PER_FILE], used: u8, length: u32, expected: u32) -> (r: Result<(), Error>)
    requires
        used <= EXTENTS_PER_FILE,
        forall|k: int| 0 <= k < EXTENTS_PER_FILE ==> #[trigger] extents@[k].start + extents@[k].sectors <= DATA_SECTORS,
        length <= 512 * total_sectors(extents@.take(used as int)),
    ensures
        final(disk).contents() == old(disk).contents(),
        r is Ok ==> payload_sound7(old(disk).contents(), *extents, used, length, expected),
        final(disk).dependable() == old(disk).dependable(),
        old(disk).dependable() && runs_present(old(disk).contents(), PAYLOAD_SECTOR, extents@.take(used as int))
            ==> (r is Ok <==> payload_sound7(old(disk).contents(), *extents, used, length, expected)),
{
    let ghost c = disk.contents();
    let ghost runs = extents@.take(used as int);
    let ghost whole = content7(c, runs, length as int);
    let total = length as u64;
    let mut offset: u64 = 0;
    let mut checksum: u32 = 0xffff_ffffu32;
    let mut block = [0u8; 512];
    while offset < total
        invariant
            used <= EXTENTS_PER_FILE,
            forall|k: int| 0 <= k < EXTENTS_PER_FILE ==> #[trigger] extents@[k].start + extents@[k].sectors <= DATA_SECTORS,
            total == length,
            length <= 512 * total_sectors(extents@.take(used as int)),
            runs == extents@.take(used as int),
            whole == content7(c, runs, length as int),
            disk.contents() == c,
            disk.dependable() == old(disk).dependable(),
            c == old(disk).contents(),
            offset <= total,
            checksum == crc_fold(0xffff_ffffu32, whole.take(offset as int)),
        decreases total - offset,
    {
        proof {
            crate::volume6::lemma_region_runs_fit(PAYLOAD_SECTOR, extents@, used as int);
        }
        let count = read_runs(disk, PAYLOAD_SECTOR, extents, used as usize, total, offset, &mut block)?;
        let part = vstd::slice::slice_subrange(block.as_slice(), 0, count);
        proof {
            assert(whole.take(offset + count) =~= whole.take(offset as int) + part@);
            lemma_crc_fold_append(0xffff_ffffu32, whole.take(offset as int), part@);
        }
        crc_update(&mut checksum, part);
        offset = offset + count as u64;
    }
    assert(whole.take(total as int) =~= whole);
    if !checksum != expected {
        return Err(Error::Corrupt);
    }
    Ok(())
}

/// The device holds every sector of every live file's and every retained
/// record's runs.
pub open spec fn payloads_present7(c: Map<u64, Seq<u8>>, nodes: Seq<Node7>, records: Seq<Option<Record7>>) -> bool {
    &&& forall|i: int| 0 <= i < NODES ==> (#[trigger] nodes[i]).kind == Kind::File
        ==> runs_present(c, PAYLOAD_SECTOR, nodes[i].extents@.take(nodes[i].extents_used as int))
    &&& forall|k: int| 0 <= k < RETAINED ==> (#[trigger] records[k] matches Some(r)
        ==> runs_present(c, PAYLOAD_SECTOR, r.extents@.take(r.extents_used as int)))
}

/// Check every live file's and every retained record's payload checksum.
fn verify_payloads<D: Disk>(disk: &mut D, nodes: &[Node7; NODES], records: &[Option<Record7>; RETAINED]) -> (r: Result<(), Error>)
    requires
        forall|i: int| 0 <= i < NODES ==> node7_valid(#[trigger] nodes@[i]),
        forall|k: int| 0 <= k < RETAINED ==> (#[trigger] records@[k] matches Some(r) ==> crate::format7::payload_ok(r.extents@, r.extents_used as int, r.length as int)),
    ensures
        final(disk).contents() == old(disk).contents(),
        r is Ok ==> payloads_sound7(old(disk).contents(), nodes@, records@),
        final(disk).dependable() == old(disk).dependable(),
        old(disk).dependable() && payloads_present7(old(disk).contents(), nodes@, records@)
            ==> (r is Ok <==> payloads_sound7(old(disk).contents(), nodes@, records@)),
{
    let ghost c = disk.contents();
    let mut i: usize = 0;
    while i < NODES
        invariant
            0 <= i <= NODES,
            disk.contents() == c,
            disk.dependable() == old(disk).dependable(),
            c == old(disk).contents(),
            forall|j: int| 0 <= j < NODES ==> node7_valid(#[trigger] nodes@[j]),
            forall|j: int| 0 <= j < i ==> (#[trigger] nodes@[j]).kind == Kind::File ==> payload_sound7(c, nodes@[j].extents, nodes@[j].extents_used, nodes@[j].length, nodes@[j].payload_crc32),
        decreases NODES - i,
    {
        let node = nodes[i];
        assert(node == nodes@[i as int]);
        if node.kind == Kind::File {
            proof {
                lemma_payload_geometry(node.extents@, node.extents_used as int, node.length as int);
            }
            verify_payload(disk, &node.extents, node.extents_used, node.length, node.payload_crc32)?;
        }
        i = i + 1;
    }
    let mut k: usize = 0;
    while k < RETAINED
        invariant
            0 <= k <= RETAINED,
            disk.contents() == c,
            disk.dependable() == old(disk).dependable(),
            c == old(disk).contents(),
            forall|j: int| 0 <= j < RETAINED ==> (#[trigger] records@[j] matches Some(r) ==> crate::format7::payload_ok(r.extents@, r.extents_used as int, r.length as int)),
            forall|j: int| 0 <= j < NODES ==> (#[trigger] nodes@[j]).kind == Kind::File ==> payload_sound7(c, nodes@[j].extents, nodes@[j].extents_used, nodes@[j].length, nodes@[j].payload_crc32),
            forall|j: int| 0 <= j < k ==> (#[trigger] records@[j] matches Some(r) ==> payload_sound7(c, r.extents, r.extents_used, r.length, r.payload_crc32)),
        decreases RETAINED - k,
    {
        let slot = records[k];
        assert(slot == records@[k as int]);
        if let Some(record) = slot {
            proof {
                lemma_payload_geometry(record.extents@, record.extents_used as int, record.length as int);
            }
            verify_payload(disk, &record.extents, record.extents_used, record.length, record.payload_crc32)?;
        }
        k = k + 1;
    }
    Ok(())
}

/// Sound run geometry keeps every run in the region and the length within it.
proof fn lemma_payload_geometry(runs: Seq<Extent>, used: int, length: int)
    requires
        runs.len() == EXTENTS_PER_FILE,
        crate::format7::payload_ok(runs, used, length),
    ensures
        forall|k: int| 0 <= k < EXTENTS_PER_FILE ==> #[trigger] runs[k].start + runs[k].sectors <= DATA_SECTORS,
        length <= 512 * total_sectors(runs.take(used)),
{
    assert forall|k: int| 0 <= k < EXTENTS_PER_FILE implies #[trigger] runs[k].start + runs[k].sectors <= DATA_SECTORS by {
        if k < used {
            assert(run_live(runs[k]));
        } else {
            assert(is_zero_run(runs[k]));
        }
    }
}

} // verus!

verus! {

/// First sector of generation `g`'s node table.
pub open spec fn nodes_base7(g: u8) -> u64 {
    (FIRST_GENERATION_SECTOR + (g % 2) * GENERATION_SECTORS) as u64
}

/// Node slot `i` of generation `g` decodes to `n`.
pub open spec fn node_read7(c: Map<u64, Seq<u8>>, g: u8, i: int, n: Node7) -> bool {
    spec_decode_node7(c[(nodes_base7(g) + i / 4) as u64].subrange(128 * (i % 4), 128 * (i % 4) + 128)) == Ok::<Node7, Error>(n)
}

/// Map word `i` of generation `g` is `w`.
pub open spec fn word_read7(c: Map<u64, Seq<u8>>, g: u8, i: int, w: u64) -> bool {
    w == spec_u64_from_le_bytes(c[(nodes_base7(g) + 64 + i / 64) as u64].subrange(8 * (i % 64), 8 * (i % 64) + 8))
}

/// The structures hold what the generation `h` names decodes to, and the
/// aggregate checksums of its three regions are the header's.
pub open spec fn generation_read7(c: Map<u64, Seq<u8>>, h: Header7, nodes: Seq<Node7>, map: Seq<u64>, records: Seq<Option<Record7>>) -> bool {
    let g = h.generation;
    let base = nodes_base7(g);
    let block = sectors_from(c, (base + 96) as u64, 4);
    &&& forall|i: int| 0 <= i < NODES ==> #[trigger] node_read7(c, g, i, nodes[i])
    &&& forall|i: int| 0 <= i < MAP_WORDS ==> #[trigger] word_read7(c, g, i, map[i])
    &&& h.nodes_checksum == spec_crc(sectors_from(c, base, 64))
    &&& h.map_checksum == spec_crc(sectors_from(c, (base + 64) as u64, 32))
    &&& h.receipts_checksum == spec_crc(block)
    &&& zero_range(block, 1536, 2048)
    &&& forall|k: int| 0 <= k < RETAINED ==> Ok::<Option<Record7>, Error>(#[trigger] records[k]) == spec_slot7(block.subrange(192 * k, 192 * k + 192))
}

/// Generation `h` names decodes on `c`: every node slot and every retained
/// slot decodes, the slot tail is zero, and each region matches its checksum.
pub open spec fn generation_decodes7(c: Map<u64, Seq<u8>>, h: Header7) -> bool {
    let g = h.generation;
    let base = nodes_base7(g);
    let block = sectors_from(c, (base + 96) as u64, 4);
    &&& forall|i: int| 0 <= i < NODES ==> #[trigger] spec_decode_node7(c[(base + i / 4) as u64].subrange(128 * (i % 4), 128 * (i % 4) + 128)) is Ok
    &&& h.nodes_checksum == spec_crc(sectors_from(c, base, 64))
    &&& h.map_checksum == spec_crc(sectors_from(c, (base + 64) as u64, 32))
    &&& h.receipts_checksum == spec_crc(block)
    &&& zero_range(block, 1536, 2048)
    &&& forall|k: int| 0 <= k < RETAINED ==> #[trigger] spec_slot7(block.subrange(192 * k, 192 * k + 192)) is Ok
}

/// Folding the next sector continues the fold over the region.
proof fn lemma_fold_sector(c: Map<u64, Seq<u8>>, base: u64, n: nat, v: u32)
    requires
        v == crc_fold(0xffff_ffffu32, sectors_from(c, base, n)),
    ensures
        crc_fold(v, c[(base + n) as u64]) == crc_fold(0xffff_ffffu32, sectors_from(c, base, n + 1)),
{
    assert(sectors_from(c, base, n + 1) == sectors_from(c, base, n) + c[(base + n) as u64]);
    lemma_crc_fold_append(0xffff_ffffu32, sectors_from(c, base, n), c[(base + n) as u64]);
}

impl Volume7 {
    /// Decode the node table, the map and the retained records of the
    /// generation `header` names, each region checked against its aggregate
    /// checksum. Every refusal but a device error is `Corrupt`.
    fn read_generation<D: Disk>(&mut self, disk: &mut D, header: &Header7) -> (r: Result<(), Error>)
        requires
            old(self).wf(),
            header.generation < 2,
        ensures
            final(self).wf(),
            final(self).header == old(self).header,
            final(self).fenced == old(self).fenced,
            final(self).recovered_from_header == old(self).recovered_from_header,
            final(self).validation == old(self).validation,
            final(disk).contents() == old(disk).contents(),
            r is Ok ==> generation_read7(old(disk).contents(), *header, final(self).nodes@, final(self).map@, final(self).records@),
            final(disk).dependable() == old(disk).dependable(),
            old(disk).dependable() && region_present7(old(disk).contents(), header.generation) ==> (r is Ok <==> generation_decodes7(old(disk).contents(), *header))
                && (r is Err ==> r == Err::<(), Error>(Error::Corrupt)),
    {
        let ghost c = disk.contents();
        let ghost s0 = *self;
        let g = header.generation;
        let base = nodes_sector(g);
        let mut block = [0u8; 512];
        let mut nodes_crc: u32 = 0xffff_ffffu32;
        let mut sector: u64 = 0;
        while sector < 64
            invariant
                0 <= sector <= 64,
                self.wf(),
                self.header == s0.header,
                self.fenced == s0.fenced,
                self.recovered_from_header == s0.recovered_from_header,
                self.validation == s0.validation,
                self.map == s0.map,
                self.records == s0.records,
                s0 == *old(self),
                disk.contents() == c,
                disk.dependable() == old(disk).dependable(),
                c == old(disk).contents(),
                g == header.generation,
                g < 2,
                base == nodes_base7(g),
                nodes_crc == crc_fold(0xffff_ffffu32, sectors_from(c, base, sector as nat)),
                forall|i: int| 0 <= i < 4 * sector ==> #[trigger] node_read7(c, g, i, self.nodes@[i]),
            decreases 64 - sector,
        {
            proof {
                if region_present7(c, g) {
                    assert(c.dom().contains(((nodes_base7(g) + sector as int) as u64)));
                }
            }
            disk.read(base + sector, &mut block)?;
            proof {
                lemma_fold_sector(c, base, sector as nat, nodes_crc);
            }
            crc_update(&mut nodes_crc, block.as_slice());
            let mut offset: usize = 0;
            while offset < 4
                invariant
                    0 <= offset <= 4,
                    0 <= sector < 64,
                    self.wf(),
                    self.header == s0.header,
                    self.fenced == s0.fenced,
                    self.recovered_from_header == s0.recovered_from_header,
                    self.validation == s0.validation,
                    self.map == s0.map,
                    self.records == s0.records,
                    s0 == *old(self),
                    disk.contents() == c,
                    disk.dependable() == old(disk).dependable(),
                    c == old(disk).contents(),
                    g == header.generation,
                    g < 2,
                    base == nodes_base7(g),
                    block@ == c[(base + sector) as u64],
                    forall|i: int| 0 <= i < 4 * sector + offset ==> #[trigger] node_read7(c, g, i, self.nodes@[i]),
                decreases 4 - offset,
            {
                let record: [u8; NODE_BYTES] = take_array(&block, offset * NODE_BYTES);
                let ghost k: int = 4 * sector + offset;
                let node = match Node7::decode(&record) {
                    Ok(node) => node,
                    Err(e) => {
                        proof {
                            assert(k / 4 == sector as int);
                            assert(k % 4 == offset as int);
                            assert(record@ == c[(nodes_base7(g) + k / 4) as u64].subrange(128 * (k % 4), 128 * (k % 4) + 128));
                            assert(!generation_decodes7(c, *header));
                        }
                        return Err(e);
                    },
                };
                let ghost before = self.nodes@;
                proof {
                    assert(k / 4 == sector as int);
                    assert(k % 4 == offset as int);
                    assert(node_read7(c, g, k, node));
                    assert(node.name_length <= 32);
                }
                let index = 4 * sector as usize + offset;
                self.nodes[index] = node;
                proof {
                    assert(self.nodes@ == before.update(k, node));
                    assert forall|j: int| 0 <= j < NODES implies (#[trigger] self.nodes@[j]).name_length <= 32 by {
                        if j != k {
                            assert(self.nodes@[j] == before[j]);
                        }
                    }
                    assert forall|j: int| 0 <= j < k + 1 implies #[trigger] node_read7(c, g, j, self.nodes@[j]) by {
                        if j != k {
                            assert(self.nodes@[j] == before[j]);
                        }
                    }
                }
                offset = offset + 1;
            }
            sector = sector + 1;
        }
        if !nodes_crc != header.nodes_checksum {
            return Err(Error::Corrupt);
        }
        let ghost s1 = *self;
        let map_base = map_sector(g);
        let mut map_crc: u32 = 0xffff_ffffu32;
        let mut words: Vec<u64> = Vec::new();
        let mut sector: u64 = 0;
        while sector < 32
            invariant
                0 <= sector <= 32,
                words@.len() == 64 * sector,
                *self == s1,
                s1.wf(),
                s0 == *old(self),
                s1.header == s0.header,
                s1.fenced == s0.fenced,
                s1.recovered_from_header == s0.recovered_from_header,
                s1.validation == s0.validation,
                disk.contents() == c,
                disk.dependable() == old(disk).dependable(),
                c == old(disk).contents(),
                g == header.generation,
                g < 2,
                map_base == nodes_base7(g) + 64,
                map_crc == crc_fold(0xffff_ffffu32, sectors_from(c, map_base, sector as nat)),
                forall|i: int| 0 <= i < words@.len() ==> #[trigger] word_read7(c, g, i, words@[i]),
            decreases 32 - sector,
        {
            proof {
                if region_present7(c, g) {
                    assert(c.dom().contains(((nodes_base7(g) + (64 + sector as int)) as u64)));
                }
            }
            disk.read(map_base + sector, &mut block)?;
            proof {
                lemma_fold_sector(c, map_base, sector as nat, map_crc);
            }
            crc_update(&mut map_crc, block.as_slice());
            let mut offset: usize = 0;
            while offset < 64
                invariant
                    0 <= offset <= 64,
                    0 <= sector < 32,
                    words@.len() == 64 * sector + offset,
                    *self == s1,
                    s1.wf(),
                    s0 == *old(self),
                    s1.header == s0.header,
                    s1.fenced == s0.fenced,
                    s1.recovered_from_header == s0.recovered_from_header,
                    s1.validation == s0.validation,
                    disk.contents() == c,
                    disk.dependable() == old(disk).dependable(),
                    c == old(disk).contents(),
                    g == header.generation,
                    g < 2,
                    map_base == nodes_base7(g) + 64,
                    block@ == c[(map_base + sector) as u64],
                    forall|i: int| 0 <= i < words@.len() ==> #[trigger] word_read7(c, g, i, words@[i]),
                decreases 64 - offset,
            {
                let word = get_u64(&block, offset * 8);
                let ghost k: int = 64 * sector + offset;
                proof {
                    assert(k / 64 == sector as int);
                    assert(k % 64 == offset as int);
                }
                words.push(word);
                assert(word_read7(c, g, k, word));
                offset = offset + 1;
            }
            sector = sector + 1;
        }
        if !map_crc != header.map_checksum {
            return Err(Error::Corrupt);
        }
        self.map = words;
        let receipts_base = receipts_sector(g);
        let mut receipt_bytes = [0u8; RECEIPT_BLOCK_BYTES];
        let mut receipts_crc: u32 = 0xffff_ffffu32;
        let mut sector: u64 = 0;
        while sector < 4
            invariant
                0 <= sector <= 4,
                disk.contents() == c,
                disk.dependable() == old(disk).dependable(),
                c == old(disk).contents(),
                g == header.generation,
                g < 2,
                receipts_base == nodes_base7(g) + 96,
                self.wf(),
                s0 == *old(self),
                self.header == s0.header,
                self.fenced == s0.fenced,
                self.recovered_from_header == s0.recovered_from_header,
                self.validation == s0.validation,
                forall|i: int| 0 <= i < NODES ==> #[trigger] node_read7(c, g, i, self.nodes@[i]),
                forall|i: int| 0 <= i < MAP_WORDS ==> #[trigger] word_read7(c, g, i, self.map@[i]),
                header.nodes_checksum == spec_crc(sectors_from(c, nodes_base7(g), 64)),
                header.map_checksum == spec_crc(sectors_from(c, (nodes_base7(g) + 64) as u64, 32)),
                receipts_crc == crc_fold(0xffff_ffffu32, sectors_from(c, receipts_base, sector as nat)),
                receipt_bytes@.subrange(0, 512 * sector as int) == sectors_from(c, receipts_base, sector as nat),
            decreases 4 - sector,
        {
            proof {
                if region_present7(c, g) {
                    assert(c.dom().contains(((nodes_base7(g) + (96 + sector as int)) as u64)));
                }
            }
            disk.read(receipts_base + sector, &mut block)?;
            proof {
                lemma_fold_sector(c, receipts_base, sector as nat, receipts_crc);
            }
            crc_update(&mut receipts_crc, block.as_slice());
            let ghost before = receipt_bytes@;
            put(&mut receipt_bytes, 512 * sector as usize, block.as_slice());
            proof {
                assert(sectors_from(c, receipts_base, (sector + 1) as nat) == sectors_from(c, receipts_base, sector as nat) + c[(receipts_base + sector) as u64]);
                assert(receipt_bytes@.subrange(0, 512 * (sector + 1)) =~= before.subrange(0, 512 * sector as int) + block@);
            }
            sector = sector + 1;
        }
        assert(receipt_bytes@.subrange(0, 2048) =~= receipt_bytes@);
        if !receipts_crc != header.receipts_checksum {
            return Err(Error::Corrupt);
        }
        let records = match receipt_slots(&receipt_bytes) {
            Ok(records) => records,
            Err(e) => {
                proof {
                    let block = sectors_from(c, (nodes_base7(g) + 96) as u64, 4);
                    assert(receipt_bytes@ == block);
                    if zero_range(block, 1536, 2048) {
                        let k = choose|k: int| 0 <= k < 8 && !(#[trigger] spec_slot7(receipt_bytes@.subrange(192 * k, 192 * k + 192)) is Ok);
                        assert(!(spec_slot7(block.subrange(192 * k, 192 * k + 192)) is Ok));
                    }
                }
                return Err(e);
            },
        };
        self.records = records;
        proof {
            let base = nodes_base7(g);
            assert forall|i: int| 0 <= i < NODES implies #[trigger] spec_decode_node7(c[(base + i / 4) as u64].subrange(128 * (i % 4), 128 * (i % 4) + 128)) is Ok by {
                assert(node_read7(c, g, i, self.nodes@[i]));
            }
        }
        Ok(())
    }
}

} // verus!

verus! {

/// `v` holds what the medium `c` selects: the header the two copies choose,
/// the generation it names decoded and checksummed, that generation valid,
/// and every payload checksum as claimed.
pub open spec fn mounted7(c: Map<u64, Seq<u8>>, v: Volume7) -> bool {
    &&& select7(c[HEADER_SECTOR], c[(HEADER_SECTOR + 1) as u64]) == Ok::<(Header7, bool), Error>((v.header, v.recovered_from_header))
    &&& generation_read7(c, v.header, v.nodes@, v.map@, v.records@)
    &&& generation_valid7(v.header, v.nodes@, v.records@, v.map@)
    &&& payloads_sound7(c, v.nodes@, v.records@)
}

/// The device holds every sector the layout addresses: both header copies,
/// both generations and the payload region.
pub open spec fn layout_present7(c: Map<u64, Seq<u8>>) -> bool {
    forall|s: u64| s < PAYLOAD_SECTOR + DATA_SECTORS ==> #[trigger] c.dom().contains(s)
}

/// Some owner state is what `c` selects.
pub open spec fn mountable7(c: Map<u64, Seq<u8>>) -> bool {
    exists|v: Volume7| v.wf() && #[trigger] mounted7(c, v)
}

/// Structures that the generation reads to decode.
proof fn lemma_read_decodes(c: Map<u64, Seq<u8>>, h: Header7, nodes: Seq<Node7>, map: Seq<u64>, records: Seq<Option<Record7>>)
    requires
        generation_read7(c, h, nodes, map, records),
    ensures
        generation_decodes7(c, h),
{
    let base = nodes_base7(h.generation);
    let block = sectors_from(c, (base + 96) as u64, 4);
    assert forall|i: int| 0 <= i < NODES implies #[trigger] spec_decode_node7(c[(base + i / 4) as u64].subrange(128 * (i % 4), 128 * (i % 4) + 128)) is Ok by {
        assert(node_read7(c, h.generation, i, nodes[i]));
    }
    assert forall|k: int| 0 <= k < RETAINED implies #[trigger] spec_slot7(block.subrange(192 * k, 192 * k + 192)) is Ok by {
        assert(Ok::<Option<Record7>, Error>(records[k]) == spec_slot7(block.subrange(192 * k, 192 * k + 192)));
    }
}

/// What a generation reads to is determined by the medium.
proof fn lemma_read_unique(c: Map<u64, Seq<u8>>, h: Header7, n1: Seq<Node7>, m1: Seq<u64>, r1: Seq<Option<Record7>>,
    n2: Seq<Node7>, m2: Seq<u64>, r2: Seq<Option<Record7>>)
    requires
        generation_read7(c, h, n1, m1, r1),
        generation_read7(c, h, n2, m2, r2),
        n1.len() == NODES && n2.len() == NODES,
        m1.len() == MAP_WORDS && m2.len() == MAP_WORDS,
        r1.len() == RETAINED && r2.len() == RETAINED,
    ensures
        n1 == n2,
        m1 == m2,
        r1 == r2,
{
    let g = h.generation;
    let block = sectors_from(c, (nodes_base7(g) + 96) as u64, 4);
    assert forall|i: int| 0 <= i < NODES implies n1[i] == n2[i] by {
        assert(node_read7(c, g, i, n1[i]));
        assert(node_read7(c, g, i, n2[i]));
    }
    assert forall|i: int| 0 <= i < MAP_WORDS implies m1[i] == m2[i] by {
        assert(word_read7(c, g, i, m1[i]));
        assert(word_read7(c, g, i, m2[i]));
    }
    assert forall|k: int| 0 <= k < RETAINED implies r1[k] == r2[k] by {
        assert(Ok::<Option<Record7>, Error>(r1[k]) == spec_slot7(block.subrange(192 * k, 192 * k + 192)));
        assert(Ok::<Option<Record7>, Error>(r2[k]) == spec_slot7(block.subrange(192 * k, 192 * k + 192)));
    }
    assert(n1 =~= n2);
    assert(m1 =~= m2);
    assert(r1 =~= r2);
}

/// Sound run geometry keeps a run list inside a medium that holds the layout.
proof fn lemma_runs_inside(c: Map<u64, Seq<u8>>, extents: Seq<Extent>, used: int, length: int)
    requires
        layout_present7(c),
        extents.len() == EXTENTS_PER_FILE,
        0 <= used <= EXTENTS_PER_FILE,
        crate::format7::payload_ok(extents, used, length),
    ensures
        runs_present(c, PAYLOAD_SECTOR, extents.take(used)),
{
    lemma_payload_geometry(extents, used, length);
    let runs = extents.take(used);
    assert forall|k: int, q: int| 0 <= k < runs.len() && 0 <= q < runs[k].sectors implies c.dom().contains(#[trigger] crate::volume6::run_sector_at(PAYLOAD_SECTOR, runs[k], q)) by {
        assert(runs[k] == extents[k]);
        assert(extents[k].start + extents[k].sectors <= DATA_SECTORS);
        let s = crate::volume6::run_sector_at(PAYLOAD_SECTOR, runs[k], q);
        assert(s < PAYLOAD_SECTOR + DATA_SECTORS);
    }
}

/// Everything a refused mount or provision leaves: the fence up and no state.
pub open spec fn cleared7(v: Volume7) -> bool {
    &&& v.wf()
    &&& v.fenced
    &&& !v.recovered_from_header
    &&& v.header == Header7::spec_initial(v.header.lineage)
    &&& v.header.lineage@ == Seq::new(16, |i: int| 0u8)
    &&& forall|i: int| 0 <= i < NODES ==> #[trigger] v.nodes@[i] == empty_node7()
    &&& forall|i: int| 0 <= i < RETAINED ==> #[trigger] v.records@[i] is None
    &&& v.map@ == Seq::new(MAP_WORDS as nat, |i: int| 0u64)
    &&& forall|k: int| 0 <= k < crate::volume7::stage::STAGES ==> #[trigger] v.stages@[k] is None
}

impl Volume7 {
    fn mount_trusted<D: Disk>(&mut self, disk: &mut D) -> (r: Result<(), Error>)
        requires
            old(self).wf(),
        ensures
            final(self).wf(),
            final(self).fenced == old(self).fenced,
            r is Ok ==> mounted7(old(disk).contents(), *final(self)),
            final(disk).dependable() == old(disk).dependable(),
            old(disk).dependable() && layout_present7(old(disk).contents()) ==> (r is Ok <==> mountable7(old(disk).contents())),
    {
        disk.flush()?;
        let ghost c = disk.contents();
        let mut first = [0u8; 512];
        let mut second = [0u8; 512];
        proof {
            if layout_present7(c) {
                assert(c.dom().contains(HEADER_SECTOR));
                assert(c.dom().contains((HEADER_SECTOR + 1) as u64));
            }
        }
        disk.read(header_sector(0), &mut first)?;
        disk.read(header_sector(1), &mut second)?;
        let (header, recovered) = match select_header(&first, &second) {
            Ok(p) => p,
            Err(e) => {
                proof {
                    if mountable7(c) {
                        let v = choose|v: Volume7| v.wf() && #[trigger] mounted7(c, v);
                        assert(first@ == c[HEADER_SECTOR]);
                    }
                }
                return Err(e);
            },
        };
        let ghost s0 = *self;
        proof {
            if layout_present7(c) {
                assert forall|j: int| 0 <= j < 100 implies c.dom().contains(#[trigger] ((nodes_base7(header.generation) + j) as u64)) by {
                    assert(((nodes_base7(header.generation) + j) as u64) < PAYLOAD_SECTOR + DATA_SECTORS);
                }
                assert(region_present7(c, header.generation));
            }
        }
        match self.read_generation(disk, &header) {
            Ok(()) => {},
            Err(e) => {
                proof {
                    if mountable7(c) {
                        let v = choose|v: Volume7| v.wf() && #[trigger] mounted7(c, v);
                        assert(first@ == c[HEADER_SECTOR]);
                        assert(v.header == header);
                        lemma_read_decodes(c, v.header, v.nodes@, v.map@, v.records@);
                    }
                }
                return Err(e);
            },
        }
        let mut scratch: Vec<u64> = Vec::new();
        core::mem::swap(&mut scratch, &mut self.validation);
        let checked = validate_generation(&header, &self.nodes, &self.records, self.map.as_slice(), &mut scratch);
        self.validation = scratch;
        if checked.is_err() {
            proof {
                if mountable7(c) {
                    let v = choose|v: Volume7| v.wf() && #[trigger] mounted7(c, v);
                    assert(first@ == c[HEADER_SECTOR]);
                    assert(v.header == header);
                    lemma_read_unique(c, header, v.nodes@, v.map@, v.records@, self.nodes@, self.map@, self.records@);
                }
            }
            return Err(checked.unwrap_err());
        }
        proof {
            assert forall|i: int| 0 <= i < NODES implies node7_valid(#[trigger] self.nodes@[i]) by {
                assert(node_rules7(header, self.nodes@, i));
            }
            assert forall|k: int| 0 <= k < RETAINED implies (#[trigger] self.records@[k] matches Some(r) ==> crate::format7::payload_ok(r.extents@, r.extents_used as int, r.length as int)) by {
                assert(receipt_rules7(header, self.nodes@, self.records@, k));
            }
            if layout_present7(c) {
                assert forall|i: int| 0 <= i < NODES && (#[trigger] self.nodes@[i]).kind == Kind::File
                    implies runs_present(c, PAYLOAD_SECTOR, self.nodes@[i].extents@.take(self.nodes@[i].extents_used as int)) by {
                    assert(node7_valid(self.nodes@[i]));
                    lemma_runs_inside(c, self.nodes@[i].extents@, self.nodes@[i].extents_used as int, self.nodes@[i].length as int);
                }
                assert forall|k: int| 0 <= k < RETAINED implies (#[trigger] self.records@[k] matches Some(r)
                    ==> runs_present(c, PAYLOAD_SECTOR, r.extents@.take(r.extents_used as int))) by {
                    if let Some(r) = self.records@[k] {
                        lemma_runs_inside(c, r.extents@, r.extents_used as int, r.length as int);
                    }
                }
                assert(payloads_present7(c, self.nodes@, self.records@));
            }
        }
        match verify_payloads(disk, &self.nodes, &self.records) {
            Ok(()) => {},
            Err(e) => {
                proof {
                    if mountable7(c) {
                        let v = choose|v: Volume7| v.wf() && #[trigger] mounted7(c, v);
                        assert(first@ == c[HEADER_SECTOR]);
                        assert(v.header == header);
                        lemma_read_unique(c, header, v.nodes@, v.map@, v.records@, self.nodes@, self.map@, self.records@);
                    }
                }
                return Err(e);
            },
        }
        self.header = header;
        self.recovered_from_header = recovered;
        assert(mounted7(c, *self));
        Ok(())
    }

    /// Flush, recover the header pair, and load the generation it names
    /// directly into this value. Any refusal clears all partial state and
    /// leaves the owner fenced; only a full verification lifts the fence.
    pub fn mount_into<D: Disk>(&mut self, disk: &mut D) -> (r: Result<(), Error>)
        requires
            old(self).wf(),
        ensures
            final(self).wf(),
            r is Ok ==> !final(self).fenced && mounted7(old(disk).contents(), *final(self)),
            r is Ok ==> forall|k: int| 0 <= k < crate::volume7::stage::STAGES ==> #[trigger] final(self).stages@[k] is None,
            r is Err ==> cleared7(*final(self)),
    {
        self.fenced = true;
        self.clear();
        match self.mount_trusted(disk) {
            Ok(()) => {
                self.stages = [None, None];
                self.fenced = false;
                Ok(())
            },
            Err(error) => {
                self.clear();
                Err(error)
            },
        }
    }
}

} // verus!

verus! {

/// After a commit publishes header `h` into its copy while the other copy
/// still holds the header `prior` it succeeded, a mount selects `h`: one
/// lineage, the next sequence, and neither epoch nor watermark going back.
pub proof fn lemma_commit_selected(c: Map<u64, Seq<u8>>, prior: Header7, h: Header7)
    requires
        spec_decode_header7(c[(HEADER_SECTOR + h.generation) as u64]) == Ok::<Header7, Error>(h),
        spec_decode_header7(c[(HEADER_SECTOR + prior.generation) as u64]) == Ok::<Header7, Error>(prior),
        h.generation < 2,
        prior.generation == 1 - h.generation,
        h.lineage == prior.lineage,
        h.sequence == prior.sequence + 1,
        h.epoch >= prior.epoch,
        h.next >= prior.next,
    ensures
        select7(c[HEADER_SECTOR], c[(HEADER_SECTOR + 1) as u64]) == Ok::<(Header7, bool), Error>((h, false)),
{
    if h.generation == 0 {
        assert(candidate7(c[HEADER_SECTOR], 0) == Some(h));
        assert(candidate7(c[(HEADER_SECTOR + 1) as u64], 1) == Some(prior));
    } else {
        assert(candidate7(c[HEADER_SECTOR], 0) == Some(prior));
        assert(candidate7(c[(HEADER_SECTOR + 1) as u64], 1) == Some(h));
    }
}

/// A freshly provisioned medium selects its first header and reports no
/// ignored copy: copy 0 names generation 0 at the first sequence and copy 1
/// is zero.
pub proof fn lemma_genesis_selected(c: Map<u64, Seq<u8>>, h: Header7)
    requires
        spec_decode_header7(c[HEADER_SECTOR]) == Ok::<Header7, Error>(h),
        h.generation == 0,
        h.sequence == 1,
        h.epoch == 1,
        h.next == NEXT_MIN,
        c[(HEADER_SECTOR + 1) as u64].len() == 512,
        zero_range(c[(HEADER_SECTOR + 1) as u64], 0, 512),
    ensures
        select7(c[HEADER_SECTOR], c[(HEADER_SECTOR + 1) as u64]) == Ok::<(Header7, bool), Error>((h, false)),
{
    let other = c[(HEADER_SECTOR + 1) as u64];
    assert(other.subrange(0, 8) != crate::format7::MAGIC@) by {
        let magic = crate::format7::MAGIC;
        assert(magic@[0] == 82u8);
        assert(other.subrange(0, 8)[0] == 0u8);
    }
    assert(spec_decode_header7(other) is Err);
    assert(candidate7(other, 1) is None);
    assert(candidate7(c[HEADER_SECTOR], 0) == Some(h));
}

} // verus!
