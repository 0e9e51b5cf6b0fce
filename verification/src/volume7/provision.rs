//! Canonical initialization and first-header publication.
use vstd::prelude::*;
use crate::codec::{zero_range, put};
use crate::extent::MAP_WORDS;
use crate::format::root_name;
use crate::format7::{Header7, NODES, Node7, RETAINED, HEADER_SECTOR, header_sector};
use crate::format7::header::{spec_decode_header7, header7_valid, lemma_header7_roundtrip};
use crate::format7::node::{empty_node7, node7_valid};
use crate::namespace::Kind;
use crate::storage::Disk;
use crate::volume7::Volume7;
use crate::volume7::mount::{generation_read7, cleared7, nodes_base7, node_read7, word_read7};
use crate::volume7::publication::{with_sums7, lemma_sectors_from_frame, region_present7};
use crate::codec::{zero_runs, lemma_zero_runs};
use crate::extent::Extent;
use crate::format7::is_zero_run;
use crate::namespace::spec_valid_name;
use crate::Error;

verus! {

/// Slot `i` holds root directory `i + 1`: version one, its own space, its
/// fixed name, no payload.
pub open spec fn root_slot7(n: Node7, i: int) -> bool {
    let name = root_name((i + 1) as u32);
    &&& n.id == i + 1
    &&& n.parent == 0
    &&& n.version == 1
    &&& n.length == 0
    &&& n.kind == Kind::Directory
    &&& n.space == i + 1
    &&& n.extents_used == 0
    &&& n.extents == empty_node7().extents
    &&& n.name_length == name.len()
    &&& n.name@ == name + Seq::new((32 - name.len()) as nat, |k: int| 0u8)
    &&& n.payload_crc32 == 0
}

/// The structures of a fresh volume: the four roots, empty slots, a free
/// map and no retained records.
pub open spec fn fresh7(v: Volume7) -> bool {
    &&& forall|i: int| 0 <= i < 4 ==> root_slot7(#[trigger] v.nodes@[i], i)
    &&& forall|i: int| 4 <= i < NODES ==> #[trigger] v.nodes@[i] == empty_node7()
    &&& forall|k: int| 0 <= k < RETAINED ==> #[trigger] v.records@[k] is None
    &&& v.map@ == Seq::new(MAP_WORDS as nat, |i: int| 0u64)
}

/// `c` holds a freshly provisioned volume for `v`: header copy 0 names
/// generation 0, copy 1 is zero, and generation 0 reads back as `v`.
pub open spec fn provisioned7(c: Map<u64, Seq<u8>>, v: Volume7) -> bool {
    &&& spec_decode_header7(c[HEADER_SECTOR]) == Ok::<Header7, Error>(v.header)
    &&& c[(HEADER_SECTOR + 1) as u64].len() == 512
    &&& zero_range(c[(HEADER_SECTOR + 1) as u64], 0, 512)
    &&& generation_read7(c, v.header, v.nodes@, v.map@, v.records@)
}

/// A root slot is a valid record.
proof fn lemma_root_valid(n: Node7, i: int)
    requires
        0 <= i < 4,
        root_slot7(n, i),
        spec_valid_name(root_name((i + 1) as u32)),
        zero_runs()@ == Seq::new(8, |k: int| Extent { start: 0, sectors: 0 }),
    ensures
        node7_valid(n),
{
    let name = root_name((i + 1) as u32);
    assert(n.name@.take(n.name_length as int) =~= name);
    assert(n.extents@.take(0) =~= Seq::<Extent>::empty());
    assert forall|k: int| 0 <= k < 8 implies #[trigger] is_zero_run(n.extents@[k]) by {
        assert(n.extents@[k] == zero_runs()@[k]);
    }
}

impl Volume7 {
    /// Install the four root directories over cleared structures.
    fn install_roots(&mut self)
        requires
            cleared7(*old(self)),
        ensures
            final(self).wf(),
            final(self).fenced == old(self).fenced,
            final(self).header == old(self).header,
            final(self).recovered_from_header == old(self).recovered_from_header,
            fresh7(*final(self)),
            forall|i: int| 0 <= i < NODES ==> node7_valid(#[trigger] final(self).nodes@[i]),
    {
        let z = [Extent { start: 0, sectors: 0 }; 8];
        proof {
            lemma_zero_runs(z);
        }
        let mut index: usize = 0;
        while index < 4
            invariant
                0 <= index <= 4,
                self.wf(),
                self.fenced == old(self).fenced,
                self.header == old(self).header,
                self.recovered_from_header == old(self).recovered_from_header,
                forall|k: int| 0 <= k < RETAINED ==> #[trigger] self.records@[k] is None,
                self.map@ == Seq::new(MAP_WORDS as nat, |i: int| 0u64),
                forall|i: int| 0 <= i < index ==> root_slot7(#[trigger] self.nodes@[i], i),
                forall|i: int| 0 <= i < index ==> node7_valid(#[trigger] self.nodes@[i]),
                forall|i: int| index <= i < NODES ==> #[trigger] self.nodes@[i] == empty_node7(),
                zero_runs() == z,
                z@ == Seq::new(8, |k: int| Extent { start: 0, sectors: 0 }),
            decreases 4 - index,
        {
            let id: u32 = index as u32 + 1;
            let name = crate::format::root_name_bytes(id);
            let mut field = [0u8; 32];
            let zero = [0u8; 32];
            proof {
                assert(zero@ =~= Seq::new(32, |i: int| 0u8));
                assert(field@ == Seq::new(32, |i: int| 0u8));
            }
            put(&mut field, 0, name);
            let node = Node7 {
                id,
                parent: 0,
                version: 1,
                length: 0,
                kind: Kind::Directory,
                space: id as u8,
                extents_used: 0,
                extents: Node7::empty().extents,
                name_length: name.len() as u8,
                name: field,
                payload_crc32: 0,
            };
            proof {
                assert(node.name@ =~= name@ + Seq::new((32 - name@.len()) as nat, |k: int| 0u8));
                assert(root_slot7(node, index as int));
                lemma_root_valid(node, index as int);
            }
            let ghost before = self.nodes@;
            self.nodes[index] = node;
            proof {
                assert(self.nodes@ == before.update(index as int, node));
                assert forall|i: int| 0 <= i < NODES implies (#[trigger] self.nodes@[i]).name_length <= 32 && self.nodes@[i].extents_used <= 8 by {
                    if i != index {
                        assert(self.nodes@[i] == before[i]);
                    }
                }
                assert forall|i: int| 0 <= i < index + 1 implies root_slot7(#[trigger] self.nodes@[i], i) by {
                    if i != index {
                        assert(self.nodes@[i] == before[i]);
                    }
                }
                assert forall|i: int| 0 <= i < index + 1 implies node7_valid(#[trigger] self.nodes@[i]) by {
                    if i != index {
                        assert(self.nodes@[i] == before[i]);
                    }
                }
                assert forall|i: int| index + 1 <= i < NODES implies #[trigger] self.nodes@[i] == empty_node7() by {
                    assert(self.nodes@[i] == before[i]);
                }
            }
            index = index + 1;
        }
        proof {
            assert forall|i: int| 0 <= i < NODES implies node7_valid(#[trigger] self.nodes@[i]) by {
                if i >= 4 {
                    assert(self.nodes@[i] == empty_node7());
                }
            }
        }
    }

    /// Zero both header copies, write generation 0, then header copy 0,
    /// flushing after each step.
    fn provision_disk<D: Disk>(&self, disk: &mut D, initial: Header7) -> (r: Result<Header7, Error>)
        requires
            self.wf(),
            fresh7(*self),
            forall|i: int| 0 <= i < NODES ==> node7_valid(#[trigger] self.nodes@[i]),
            header7_valid(initial),
            initial.generation == 0,
        ensures
            r matches Ok(h) ==> {
                &&& exists|sums: (u32, u32, u32)| h == #[trigger] with_sums7(initial, 0, sums)
                &&& provisioned7(final(disk).contents(), Volume7 { header: h, ..*self })
            },
            final(disk).dependable() == old(disk).dependable(),
            old(disk).dependable() && old(disk).contents().dom().contains(HEADER_SECTOR) && old(disk).contents().dom().contains((HEADER_SECTOR + 1) as u64)
                && region_present7(old(disk).contents(), 0) ==> r is Ok,
    {
        let ghost c0 = disk.contents();
        let invalid = [0u8; 512];
        disk.write(header_sector(0), &invalid)?;
        disk.write(header_sector(1), &invalid)?;
        disk.flush()?;
        let ghost c1 = disk.contents();
        proof {
            assert(c1[(HEADER_SECTOR + 1) as u64] == invalid@);
            assert forall|s: u64| c0.dom().contains(s) implies #[trigger] c1.dom().contains(s) by {}
        }
        let sums = self.write_generation(disk, 0)?;
        let ghost cg = disk.contents();
        disk.flush()?;
        let header = Header7 { nodes_checksum: sums.0, map_checksum: sums.1, receipts_checksum: sums.2, ..initial };
        assert(header == with_sums7(initial, 0, sums));
        let bytes = match header.encode() {
            Ok(b) => b,
            Err(e) => {
                return Err(e);
            },
        };
        disk.write(header_sector(0), &bytes)?;
        disk.flush()?;
        proof {
            let c3 = disk.contents();
            let v = Volume7 { header, ..*self };
            lemma_header7_roundtrip(bytes@, header);
            assert(c3[HEADER_SECTOR] == bytes@);
            assert(cg[(HEADER_SECTOR + 1) as u64] == c1[(HEADER_SECTOR + 1) as u64]);
            assert(c3[(HEADER_SECTOR + 1) as u64] == invalid@);
            assert(zero_range(invalid@, 0, 512));
            let written_as = with_sums7(self.header, 0, sums);
            assert(generation_read7(cg, written_as, self.nodes@, self.map@, self.records@));
            let base = nodes_base7(0);
            lemma_sectors_from_frame(c3, cg, base, 64);
            lemma_sectors_from_frame(c3, cg, (base + 64) as u64, 32);
            lemma_sectors_from_frame(c3, cg, (base + 96) as u64, 4);
            assert forall|i: int| 0 <= i < NODES implies #[trigger] node_read7(c3, 0, i, self.nodes@[i]) by {
                assert(node_read7(cg, 0, i, self.nodes@[i]));
            }
            assert forall|i: int| 0 <= i < MAP_WORDS implies #[trigger] word_read7(c3, 0, i, self.map@[i]) by {
                assert(word_read7(cg, 0, i, self.map@[i]));
            }
            assert(generation_read7(c3, header, v.nodes@, v.map@, v.records@));
        }
        Ok(header)
    }

    /// Destructively format this value's medium as a fresh volume of lineage
    /// `lineage`: both header copies are zeroed and flushed, then generation 0
    /// with the four roots, then header copy 0. A zero lineage is `Corrupt`
    /// before anything is touched; any later failure clears the owner and
    /// leaves it fenced. This is not an upgrade path: existing metadata is
    /// overwritten.
    pub fn provision_into<D: Disk>(&mut self, disk: &mut D, lineage: [u8; 16]) -> (r: Result<(), Error>)
        requires
            old(self).wf(),
        ensures
            final(self).wf(),
            lineage@ == Seq::new(16, |i: int| 0u8) ==> r == Err::<(), Error>(Error::Corrupt) && *final(self) == *old(self)
                && final(disk).contents() == old(disk).contents(),
            r is Ok ==> {
                &&& !final(self).fenced
                &&& !final(self).recovered_from_header
                &&& fresh7(*final(self))
                &&& exists|sums: (u32, u32, u32)| final(self).header == #[trigger] with_sums7(Header7::spec_initial(lineage), 0, sums)
                &&& provisioned7(final(disk).contents(), *final(self))
            },
            r is Err && lineage@ != Seq::new(16, |i: int| 0u8) ==> cleared7(*final(self)),
    {
        let initial = Header7::initial(lineage);
        if initial.validate().is_err() {
            return Err(Error::Corrupt);
        }
        self.fenced = true;
        self.clear();
        self.install_roots();
        match self.provision_disk(disk, initial) {
            Ok(header) => {
                self.header = header;
                self.fenced = false;
                Ok(())
            },
            Err(error) => {
                self.clear();
                Err(error)
            },
        }
    }
}

} // verus!

verus! {

use crate::volume7::mount::{select7, candidate7, clean_genesis7, mounted7};

/// A mount finds what provisioning wrote: on a medium provisioned for `v`
/// with `lineage`, a mount that succeeds with `w` selects `v`'s header,
/// reports no ignored header copy, and reads back `v`'s records, map and
/// retained slots.
pub proof fn lemma_provision_mounts(c: Map<u64, Seq<u8>>, v: Volume7, w: Volume7, lineage: [u8; 16], sums: (u32, u32, u32))
    requires
        v.wf(),
        w.wf(),
        v.header == with_sums7(Header7::spec_initial(lineage), 0, sums),
        provisioned7(c, v),
        mounted7(c, w),
    ensures
        w.header == v.header,
        !w.recovered_from_header,
        w.nodes@ == v.nodes@,
        w.map@ == v.map@,
        w.records@ == v.records@,
{
    let other = c[(HEADER_SECTOR + 1) as u64];
    assert(other.subrange(0, 8) != crate::format7::MAGIC@) by {
        let magic = crate::format7::MAGIC;
        assert(magic@[0] == 82u8);
        assert(other.subrange(0, 8)[0] == 0u8);
    }
    assert(spec_decode_header7(other) is Err);
    assert(candidate7(other, 1) is None);
    assert(candidate7(c[HEADER_SECTOR], 0) == Some(v.header));
    assert(clean_genesis7(v.header, other));
    assert(select7(c[HEADER_SECTOR], other) == Ok::<(Header7, bool), Error>((v.header, false)));
    let g = v.header.generation;
    assert forall|i: int| 0 <= i < NODES implies w.nodes@[i] == v.nodes@[i] by {
        assert(node_read7(c, g, i, w.nodes@[i]));
        assert(node_read7(c, g, i, v.nodes@[i]));
    }
    assert(w.nodes@ =~= v.nodes@);
    assert forall|i: int| 0 <= i < MAP_WORDS implies w.map@[i] == v.map@[i] by {
        assert(word_read7(c, g, i, w.map@[i]));
        assert(word_read7(c, g, i, v.map@[i]));
    }
    assert(w.map@ =~= v.map@);
    assert(w.records@ =~= v.records@);
}

} // verus!
