//! Dual-generation publication: the candidate structures go to the inactive
//! generation, and only once they are durable does its header copy name them.
use vstd::prelude::*;
use vstd::bytes::{spec_u64_from_le_bytes, spec_u64_to_le_bytes};
use crate::checksum::{crc_fold, crc_update, spec_crc, lemma_crc_fold_append};
use crate::codec::{zero_range, put, put_u64, take_array, written, lemma_le64};
use crate::extent::MAP_WORDS;
use crate::format::sectors_from;
use crate::format7::{
    Header7, NODES, Node7, RETAINED, Record7, NODE_BYTES, RECORD_BYTES, RECEIPT_BLOCK_BYTES, nodes_sector,
    map_sector, receipts_sector,
};
use crate::format7::node::{spec_decode_node7, node7_valid, empty_node7, lemma_node7_roundtrip};
use crate::format7::header::{spec_decode_header7, lemma_header7_roundtrip, header7_valid};
use crate::format7::validation::{generation_valid7, validate_generation, node_rules7, receipt_rules7};
use crate::format7::{HEADER_SECTOR, header_sector};
use crate::format7::record::{spec_slot7, record7_local_ok, lemma_record7_roundtrip, encodes_record7};
use crate::storage::Disk;
use crate::volume7::Volume7;
use crate::volume7::mount::{nodes_base7, node_read7, word_read7, generation_read7};
use crate::Error;

verus! {

/// `c1` is `c0` with only generation `g`'s hundred sectors replaced.
pub open spec fn region_only7(c0: Map<u64, Seq<u8>>, c1: Map<u64, Seq<u8>>, g: u8) -> bool {
    &&& c1.dom() == c0.dom()
    &&& forall|s: u64| !(nodes_base7(g) <= s < nodes_base7(g) + 100) ==> #[trigger] c1[s] == c0[s]
}

/// The device holds every sector of generation region `g`.
pub open spec fn region_present7(c: Map<u64, Seq<u8>>, g: u8) -> bool {
    forall|j: int| 0 <= j < 100 ==> c.dom().contains(#[trigger] ((nodes_base7(g) + j) as u64))
}

/// A header carrying generation `g` and the three region checksums.
pub open spec fn with_sums7(h: Header7, g: u8, sums: (u32, u32, u32)) -> Header7 {
    Header7 { generation: g, nodes_checksum: sums.0, map_checksum: sums.1, receipts_checksum: sums.2, ..h }
}

pub(crate) proof fn lemma_sectors_from_frame(c1: Map<u64, Seq<u8>>, c2: Map<u64, Seq<u8>>, start: u64, n: nat)
    requires
        forall|k: int| 0 <= k < n ==> #[trigger] c1[(start + k) as u64] == c2[(start + k) as u64],
    ensures
        sectors_from(c1, start, n) == sectors_from(c2, start, n),
    decreases n,
{
    if n > 0 {
        lemma_sectors_from_frame(c1, c2, start, (n - 1) as nat);
        assert(c1[(start + (n - 1)) as u64] == c2[(start + (n - 1)) as u64]);
    }
}

/// An all-zero slot decodes to the empty record.
pub(crate) proof fn lemma_zero_node(b: Seq<u8>)
    requires
        b.len() == 128,
        zero_range(b, 0, 128),
    ensures
        spec_decode_node7(b) == Ok::<Node7, Error>(empty_node7()),
{
}

/// A record's image is not all zero: its subject is not.
pub(crate) proof fn lemma_record_image_nonzero(b: Seq<u8>, r: Record7)
    requires
        record7_local_ok(r),
        encodes_record7(b, r),
    ensures
        !zero_range(b, 0, 192),
{
    lemma_le64(r.subject);
    lemma_le64(0);
    if zero_range(b, 0, 192) {
        assert(b.subrange(0, 8) =~= spec_u64_to_le_bytes(0));
    }
}

impl Volume7 {
    /// Encode the node table, the map and the retained records into generation
    /// `generation` and return the three region checksums. A failed write is
    /// the device's error and may leave the region partly overwritten.
    pub(crate) fn write_generation<D: Disk>(&self, disk: &mut D, generation: u8) -> (r: Result<(u32, u32, u32), Error>)
        requires
            self.wf(),
            generation < 2,
            forall|i: int| 0 <= i < NODES ==> node7_valid(#[trigger] self.nodes@[i]),
            forall|k: int| 0 <= k < RETAINED ==> (#[trigger] self.records@[k] matches Some(r) ==> record7_local_ok(r)),
        ensures
            r matches Ok(sums) ==> {
                &&& region_only7(old(disk).contents(), final(disk).contents(), generation)
                &&& generation_read7(final(disk).contents(), with_sums7(self.header, generation, sums), self.nodes@, self.map@, self.records@)
            },
            final(disk).dependable() == old(disk).dependable(),
            old(disk).dependable() && region_present7(old(disk).contents(), generation) ==> r is Ok,
    {
        let ghost c0 = disk.contents();
        let g = generation;
        let base = nodes_sector(g);
        let mut nodes_crc: u32 = 0xffff_ffffu32;
        let mut sector: u64 = 0;
        while sector < 64
            invariant
                0 <= sector <= 64,
                self.wf(),
                g < 2,
                base == nodes_base7(g),
                forall|i: int| 0 <= i < NODES ==> node7_valid(#[trigger] self.nodes@[i]),
                c0 == old(disk).contents(),
                disk.contents().dom() == c0.dom(),
                disk.dependable() == old(disk).dependable(),
                g == generation,
                forall|s: u64| !(base <= s < base + sector) ==> #[trigger] disk.contents()[s] == c0[s],
                forall|j: int| 0 <= j < sector ==> #[trigger] disk.contents()[(base + j) as u64].len() == 512,
                forall|i: int| 0 <= i < 4 * sector ==> #[trigger] node_read7(disk.contents(), g, i, self.nodes@[i]),
                nodes_crc == crc_fold(0xffff_ffffu32, sectors_from(disk.contents(), base, sector as nat)),
            decreases 64 - sector,
        {
            let mut block = [0u8; 512];
            let mut offset: usize = 0;
            while offset < 4
                invariant
                    0 <= offset <= 4,
                    0 <= sector < 64,
                    forall|i: int| 0 <= i < NODES ==> node7_valid(#[trigger] self.nodes@[i]),
                    forall|o: int| 0 <= o < offset ==> #[trigger] spec_decode_node7(block@.subrange(128 * o, 128 * o + 128)) == Ok::<Node7, Error>(self.nodes@[4 * sector + o]),
                decreases 4 - offset,
            {
                let index = 4 * sector as usize + offset;
                let node = self.nodes[index];
                assert(node == self.nodes@[index as int]);
                let encoded = match node.encode() {
                    Ok(b) => b,
                    Err(e) => {
                        return Err(e);
                    },
                };
                let ghost before = block@;
                put(&mut block, offset * NODE_BYTES, encoded.as_slice());
                proof {
                    assert(block@.subrange(128 * offset as int, 128 * offset + 128) =~= encoded@);
                    if node == empty_node7() {
                        lemma_zero_node(encoded@);
                    } else {
                        lemma_node7_roundtrip(encoded@, node);
                    }
                    assert forall|o: int| 0 <= o < offset + 1 implies #[trigger] spec_decode_node7(block@.subrange(128 * o, 128 * o + 128)) == Ok::<Node7, Error>(self.nodes@[4 * sector + o]) by {
                        if o < offset {
                            assert(block@.subrange(128 * o, 128 * o + 128) =~= before.subrange(128 * o, 128 * o + 128));
                        }
                    }
                }
                offset = offset + 1;
            }
            let ghost c1 = disk.contents();
            proof {
                lemma_crc_fold_append(0xffff_ffffu32, sectors_from(c1, base, sector as nat), block@);
            }
            crc_update(&mut nodes_crc, block.as_slice());
            proof {
                if region_present7(c0, g) {
                    assert(c0.dom().contains(((nodes_base7(g) + sector as int) as u64)));
                }
            }
            disk.write(base + sector, &block)?;
            proof {
                let c2 = disk.contents();
                assert(c2 == c1.insert((base + sector) as u64, block@));
                lemma_sectors_from_frame(c2, c1, base, sector as nat);
                assert(sectors_from(c2, base, (sector + 1) as nat) == sectors_from(c2, base, sector as nat) + c2[(base + sector) as u64]);
                assert forall|i: int| 0 <= i < 4 * (sector + 1) implies #[trigger] node_read7(c2, g, i, self.nodes@[i]) by {
                    if i < 4 * sector {
                        assert(node_read7(c1, g, i, self.nodes@[i]));
                        assert(((base + i / 4) as u64) != ((base + sector) as u64));
                    } else {
                        let o = i - 4 * sector;
                        assert(i / 4 == sector as int);
                        assert(i % 4 == o);
                    }
                }
                assert forall|j: int| 0 <= j < sector + 1 implies #[trigger] c2[(base + j) as u64].len() == 512 by {
                    if j < sector {
                        assert(c1[(base + j) as u64].len() == 512);
                    }
                }
            }
            sector = sector + 1;
        }
        let ghost cn = disk.contents();
        let map_base = map_sector(g);
        let mut map_crc: u32 = 0xffff_ffffu32;
        let mut sector: u64 = 0;
        while sector < 32
            invariant
                0 <= sector <= 32,
                self.wf(),
                g < 2,
                base == nodes_base7(g),
                map_base == base + 64,
                c0 == old(disk).contents(),
                disk.contents().dom() == c0.dom(),
                disk.dependable() == old(disk).dependable(),
                g == generation,
                forall|s: u64| !(base <= s < base + 64 + sector) ==> #[trigger] disk.contents()[s] == c0[s],
                forall|s: u64| base <= s < base + 64 ==> #[trigger] disk.contents()[s] == cn[s],
                forall|j: int| 0 <= j < 64 ==> #[trigger] cn[(base + j) as u64].len() == 512,
                forall|i: int| 0 <= i < NODES ==> #[trigger] node_read7(cn, g, i, self.nodes@[i]),
                !nodes_crc == spec_crc(sectors_from(cn, base, 64)),
                forall|j: int| 0 <= j < sector ==> #[trigger] disk.contents()[(map_base + j) as u64].len() == 512,
                forall|i: int| 0 <= i < 64 * sector ==> #[trigger] word_read7(disk.contents(), g, i, self.map@[i]),
                map_crc == crc_fold(0xffff_ffffu32, sectors_from(disk.contents(), map_base, sector as nat)),
            decreases 32 - sector,
        {
            let mut block = [0u8; 512];
            let mut offset: usize = 0;
            while offset < 64
                invariant
                    0 <= offset <= 64,
                    0 <= sector < 32,
                    self.wf(),
                    forall|o: int| 0 <= o < offset ==> #[trigger] spec_u64_from_le_bytes(block@.subrange(8 * o, 8 * o + 8)) == self.map@[64 * sector + o],
                decreases 64 - offset,
            {
                let word = self.map[64 * sector as usize + offset];
                let ghost before = block@;
                put_u64(&mut block, offset * 8, word);
                proof {
                    lemma_le64(word);
                    assert(block@.subrange(8 * offset as int, 8 * offset + 8) =~= spec_u64_to_le_bytes(word));
                    assert forall|o: int| 0 <= o < offset + 1 implies #[trigger] spec_u64_from_le_bytes(block@.subrange(8 * o, 8 * o + 8)) == self.map@[64 * sector + o] by {
                        if o < offset {
                            assert(block@.subrange(8 * o, 8 * o + 8) =~= before.subrange(8 * o, 8 * o + 8));
                        }
                    }
                }
                offset = offset + 1;
            }
            let ghost c1 = disk.contents();
            proof {
                lemma_crc_fold_append(0xffff_ffffu32, sectors_from(c1, map_base, sector as nat), block@);
            }
            crc_update(&mut map_crc, block.as_slice());
            proof {
                if region_present7(c0, g) {
                    assert(c0.dom().contains(((nodes_base7(g) + (64 + sector as int)) as u64)));
                }
            }
            disk.write(map_base + sector, &block)?;
            proof {
                let c2 = disk.contents();
                assert(c2 == c1.insert((map_base + sector) as u64, block@));
                lemma_sectors_from_frame(c2, c1, map_base, sector as nat);
                assert(sectors_from(c2, map_base, (sector + 1) as nat) == sectors_from(c2, map_base, sector as nat) + c2[(map_base + sector) as u64]);
                assert forall|i: int| 0 <= i < 64 * (sector + 1) implies #[trigger] word_read7(c2, g, i, self.map@[i]) by {
                    if i < 64 * sector {
                        assert(word_read7(c1, g, i, self.map@[i]));
                        assert(((base + 64 + i / 64) as u64) != ((map_base + sector) as u64));
                    } else {
                        let o = i - 64 * sector;
                        assert(i / 64 == sector as int);
                        assert(i % 64 == o);
                    }
                }
                assert forall|j: int| 0 <= j < sector + 1 implies #[trigger] c2[(map_base + j) as u64].len() == 512 by {
                    if j < sector {
                        assert(c1[(map_base + j) as u64].len() == 512);
                    }
                }
            }
            sector = sector + 1;
        }
        let ghost cm = disk.contents();
        let mut full = [0u8; RECEIPT_BLOCK_BYTES];
        let mut k: usize = 0;
        while k < RETAINED
            invariant
                0 <= k <= RETAINED,
                forall|j: int| 0 <= j < RETAINED ==> (#[trigger] self.records@[j] matches Some(r) ==> record7_local_ok(r)),
                forall|j: int| 0 <= j < k ==> Ok::<Option<Record7>, Error>(#[trigger] self.records@[j]) == spec_slot7(full@.subrange(192 * j, 192 * j + 192)),
                zero_range(full@, 192 * k, 2048),
            decreases RETAINED - k,
        {
            let slot = self.records[k];
            assert(slot == self.records@[k as int]);
            let ghost before = full@;
            match slot {
                Some(record) => {
                    let encoded = match record.encode() {
                        Ok(b) => b,
                        Err(e) => {
                            return Err(e);
                        },
                    };
                    put(&mut full, 192 * k, encoded.as_slice());
                    proof {
                        assert(full@.subrange(192 * k as int, 192 * k + 192) =~= encoded@);
                        lemma_record7_roundtrip(encoded@, record);
                        lemma_record_image_nonzero(encoded@, record);
                    }
                },
                None => {
                    proof {
                        assert(zero_range(full@.subrange(192 * k as int, 192 * k + 192), 0, 192));
                    }
                },
            }
            proof {
                assert forall|j: int| 0 <= j < k + 1 implies Ok::<Option<Record7>, Error>(#[trigger] self.records@[j]) == spec_slot7(full@.subrange(192 * j, 192 * j + 192)) by {
                    if j < k {
                        assert(full@.subrange(192 * j, 192 * j + 192) =~= before.subrange(192 * j, 192 * j + 192));
                    }
                }
            }
            k = k + 1;
        }
        let receipts_base = receipts_sector(g);
        let mut receipts_crc: u32 = 0xffff_ffffu32;
        let mut sector: u64 = 0;
        while sector < 4
            invariant
                0 <= sector <= 4,
                g < 2,
                base == nodes_base7(g),
                map_base == base + 64,
                receipts_base == base + 96,
                c0 == old(disk).contents(),
                disk.contents().dom() == c0.dom(),
                disk.dependable() == old(disk).dependable(),
                g == generation,
                forall|s: u64| !(base <= s < base + 96 + sector) ==> #[trigger] disk.contents()[s] == c0[s],
                forall|s: u64| base <= s < base + 96 ==> #[trigger] disk.contents()[s] == cm[s],
                disk.contents().dom() == c0.dom(),
                full@.len() == 2048,
                sectors_from(disk.contents(), receipts_base, sector as nat) == full@.subrange(0, 512 * sector as int),
                receipts_crc == crc_fold(0xffff_ffffu32, full@.subrange(0, 512 * sector as int)),
            decreases 4 - sector,
        {
            let block: [u8; 512] = take_array(&full, 512 * sector as usize);
            proof {
                assert(full@.subrange(0, 512 * (sector + 1)) =~= full@.subrange(0, 512 * sector as int) + block@);
                lemma_crc_fold_append(0xffff_ffffu32, full@.subrange(0, 512 * sector as int), block@);
            }
            crc_update(&mut receipts_crc, block.as_slice());
            let ghost c1 = disk.contents();
            proof {
                if region_present7(c0, g) {
                    assert(c0.dom().contains(((nodes_base7(g) + (96 + sector as int)) as u64)));
                }
            }
            disk.write(receipts_base + sector, &block)?;
            proof {
                let c2 = disk.contents();
                assert(c2 == c1.insert((receipts_base + sector) as u64, block@));
                lemma_sectors_from_frame(c2, c1, receipts_base, sector as nat);
                assert(sectors_from(c2, receipts_base, (sector + 1) as nat) == sectors_from(c2, receipts_base, sector as nat) + c2[(receipts_base + sector) as u64]);
            }
            sector = sector + 1;
        }
        proof {
            let cf = disk.contents();
            assert(full@.subrange(0, 2048) =~= full@);
            assert forall|s: u64| base <= s < base + 96 implies #[trigger] cf[s] == cm[s] by {}
            lemma_sectors_from_frame(cf, cn, base, 64);
            lemma_sectors_from_frame(cf, cm, map_base, 32);
            assert forall|i: int| 0 <= i < NODES implies #[trigger] node_read7(cf, g, i, self.nodes@[i]) by {
                assert(node_read7(cn, g, i, self.nodes@[i]));
                assert(cf[(base + i / 4) as u64] == cn[(base + i / 4) as u64]);
            }
            assert forall|i: int| 0 <= i < MAP_WORDS implies #[trigger] word_read7(cf, g, i, self.map@[i]) by {
                assert(word_read7(cm, g, i, self.map@[i]));
                assert(cf[(base + 64 + i / 64) as u64] == cm[(base + 64 + i / 64) as u64]);
            }
        }
        Ok((!nodes_crc, !map_crc, !receipts_crc))
    }
}

} // verus!

verus! {

/// The header a commit of `h` publishes before its checksums are known: the
/// next sequence in the other generation.
pub open spec fn candidate_of7(h: Header7) -> Header7 {
    Header7 { sequence: (h.sequence + 1) as u64, generation: h.generation ^ 1u8, ..h }
}

/// `c` holds a published generation: header copy `h.generation` decodes to
/// `h`, and the generation it names reads back as the structures.
pub open spec fn published7(c: Map<u64, Seq<u8>>, h: Header7, v: Volume7) -> bool {
    &&& spec_decode_header7(c[(HEADER_SECTOR + h.generation) as u64]) == Ok::<Header7, Error>(h)
    &&& generation_read7(c, h, v.nodes@, v.map@, v.records@)
    &&& generation_valid7(h, v.nodes@, v.records@, v.map@)
}

impl Volume7 {
    /// Persist the candidate structures to the inactive generation, then name
    /// them with its header copy. The caller keeps the owner fenced until it
    /// adopts the returned header. A sequence at its limit is `Exhausted` and
    /// structures that are not a valid generation are `Corrupt`, both before
    /// any write; a failure after the first write is `Uncertain`.
    pub(crate) fn publish_candidate<D: Disk>(&mut self, disk: &mut D) -> (r: Result<Header7, Error>)
        requires
            old(self).wf(),
        ensures
            final(self).wf(),
            final(self).header == old(self).header,
            final(self).nodes == old(self).nodes,
            final(self).records == old(self).records,
            final(self).map == old(self).map,
            final(self).fenced == old(self).fenced,
            final(self).recovered_from_header == old(self).recovered_from_header,
            old(self).header.sequence == u64::MAX ==> r == Err::<Header7, Error>(Error::Exhausted) && final(disk).contents() == old(disk).contents(),
            old(self).header.sequence < u64::MAX && !generation_valid7(candidate_of7(old(self).header), old(self).nodes@, old(self).records@, old(self).map@)
                ==> r == Err::<Header7, Error>(Error::Corrupt) && final(disk).contents() == old(disk).contents(),
            old(self).header.sequence < u64::MAX && generation_valid7(candidate_of7(old(self).header), old(self).nodes@, old(self).records@, old(self).map@)
                ==> (r is Ok || r == Err::<Header7, Error>(Error::Uncertain)),
            r matches Ok(h) ==> {
                &&& exists|sums: (u32, u32, u32)| h == #[trigger] with_sums7(candidate_of7(old(self).header), candidate_of7(old(self).header).generation, sums)
                &&& published7(final(disk).contents(), h, *final(self))
                &&& forall|s: u64| !(nodes_base7(h.generation) <= s < nodes_base7(h.generation) + 100) && s != HEADER_SECTOR + h.generation
                    ==> #[trigger] final(disk).contents()[s] == old(disk).contents()[s]
            },
    {
        if self.header.sequence == u64::MAX {
            return Err(Error::Exhausted);
        }
        let g = self.header.generation ^ 1u8;
        let candidate = Header7 { sequence: self.header.sequence + 1, generation: g, ..self.header };
        assert(candidate == candidate_of7(self.header));
        let mut scratch: Vec<u64> = Vec::new();
        core::mem::swap(&mut scratch, &mut self.validation);
        let checked = validate_generation(&candidate, &self.nodes, &self.records, self.map.as_slice(), &mut scratch);
        self.validation = scratch;
        checked?;
        proof {
            assert(g < 2);
            assert forall|i: int| 0 <= i < NODES implies node7_valid(#[trigger] self.nodes@[i]) by {
                assert(node_rules7(candidate, self.nodes@, i));
            }
            assert forall|k: int| 0 <= k < RETAINED implies (#[trigger] self.records@[k] matches Some(r) ==> record7_local_ok(r)) by {
                assert(receipt_rules7(candidate, self.nodes@, self.records@, k));
            }
        }
        let ghost c0 = disk.contents();
        let sums = match self.write_generation(disk, g) {
            Ok(sums) => sums,
            Err(_) => {
                return Err(Error::Uncertain);
            },
        };
        let published = Header7 { nodes_checksum: sums.0, map_checksum: sums.1, receipts_checksum: sums.2, ..candidate };
        assert(published == with_sums7(candidate, g, sums));
        assert(header7_valid(published));
        let encoded = match published.encode() {
            Ok(b) => b,
            Err(e) => {
                return Err(e);
            },
        };
        if disk.flush().is_err() {
            return Err(Error::Uncertain);
        }
        let ghost c1 = disk.contents();
        if disk.write(header_sector(g), &encoded).is_err() {
            return Err(Error::Uncertain);
        }
        if disk.flush().is_err() {
            return Err(Error::Uncertain);
        }
        proof {
            let c2 = disk.contents();
            lemma_header7_roundtrip(encoded@, published);
            assert(c2[(HEADER_SECTOR + g) as u64] == encoded@);
            let base = nodes_base7(g);
            lemma_sectors_from_frame(c2, c1, base, 64);
            lemma_sectors_from_frame(c2, c1, (base + 64) as u64, 32);
            lemma_sectors_from_frame(c2, c1, (base + 96) as u64, 4);
            assert forall|i: int| 0 <= i < NODES implies #[trigger] node_read7(c2, g, i, self.nodes@[i]) by {
                assert(node_read7(c1, g, i, self.nodes@[i]));
            }
            assert forall|i: int| 0 <= i < MAP_WORDS implies #[trigger] word_read7(c2, g, i, self.map@[i]) by {
                assert(word_read7(c1, g, i, self.map@[i]));
            }
            let written_as = with_sums7(self.header, g, sums);
            assert(generation_read7(c1, written_as, self.nodes@, self.map@, self.records@));
            assert(written_as.generation == published.generation);
            assert(written_as.nodes_checksum == published.nodes_checksum);
            assert(written_as.map_checksum == published.map_checksum);
            assert(written_as.receipts_checksum == published.receipts_checksum);
            assert(generation_read7(c2, published, self.nodes@, self.map@, self.records@));
            assert(header7_valid(published));
            assert(spec_decode_header7(c2[(HEADER_SECTOR + published.generation) as u64]) == Ok::<Header7, Error>(published));
            assert forall|i: int| 0 <= i < NODES implies #[trigger] node_rules7(published, self.nodes@, i) by {
                assert(node_rules7(candidate, self.nodes@, i));
            }
            assert forall|i: int| 0 <= i < RETAINED implies #[trigger] receipt_rules7(published, self.nodes@, self.records@, i) by {
                assert(receipt_rules7(candidate, self.nodes@, self.records@, i));
            }
            assert(generation_valid7(published, self.nodes@, self.records@, self.map@));
            assert(published7(c2, published, *self));
            assert(published == with_sums7(candidate_of7(old(self).header), candidate_of7(old(self).header).generation, sums));
            assert forall|s: u64| !(nodes_base7(g) <= s < nodes_base7(g) + 100) && s != HEADER_SECTOR + g implies #[trigger] c2[s] == c0[s] by {
                assert(c2[s] == c1[s]);
            }
        }
        Ok(published)
    }
}

} // verus!
