//! Explicit out-of-place migration of a two-bank volume and its recovery
//! evidence onto distinct, blank, disposable media in this layout.
//!
//! The source is only read: its banks are selected with the two-bank codec
//! directly, never mounted, because a mount may publish into it. The target's
//! header copies must both be zero. Every live file's bytes are checked
//! against their recorded checksum and copied into freshly planned runs; a
//! committed record whose object still sits at the committed version shares
//! that file's runs, any other record gets runs of its own. The generation is
//! validated before a payload sector is written, and published last.
use vstd::prelude::*;
use crate::admission::{AdmissionState, PreventionReason};
use crate::checksum::{crc, spec_crc};
use crate::codec::{put, slices_equal, zero_range, all_zero};
use crate::extent::{Extent, DATA_SECTORS, total_sectors};
use crate::format::{generation_at, generation_present, Metadata, nodes_image, recovery_image, lemma_recovery_image, find_id, holds_id, spec_data_sector, data_sector, read_sectors, sectors_from, sectors_present};
use crate::format7::{Header7, NODES, Node7, RETAINED, Record7, RecordState, HEADER_SECTOR, PAYLOAD_SECTOR, header_sector};
use crate::format7::node::empty_node7;
use crate::namespace::{Kind, Node};
use crate::recovery::{Record, Recovery};
use crate::storage::Disk;
use crate::upgrade6::source_bytes;
use crate::volume::{spec_select, select};
use crate::volume6::{PayloadPlan, sectors_for};
use crate::volume7::{Volume7, find7, live7};
use crate::volume7::payload::{plan_payload, reserve_plan, greedy7};
use crate::volume7::mount::{candidate7, clean_genesis7, select7, content7, payloads_sound7, payload_sound7, cleared7, generation_read7, node_read7, word_read7, nodes_base7};
use crate::volume7::provision::provisioned7;
use crate::volume7::publication::{with_sums7, lemma_sectors_from_frame};
use crate::provision::{ENVELOPE_SECTOR, envelope_lineage};
use crate::format7::validation::{generation_valid7, validate_generation, node_rules7, receipt_rules7};
use crate::format7::header::{spec_decode_header7, header7_valid, lemma_header7_roundtrip};
use crate::format7::node::node7_valid;
use crate::format7::record::record7_local_ok;
use crate::format7::overlap;
use crate::format7::validation::{owned7, owned_prefix7, node_owned7, record_owned7, holds7, disjoint7, lemma_owned_prefix};
use crate::volume6::{lemma_locate, lemma_payload_byte, covered, payload_byte, padded_at, write_runs};
use crate::format7::validation::{aliases7, aliases_current};
use crate::{Error, OBJECTS};

verus! {

/// The epoch a migrated volume starts in: the recovery block's, else the first.
pub open spec fn epoch_of(m: Metadata) -> u64 {
    match m.recovery {
        Some(r) => r.epoch,
        None => 1,
    }
}

/// Two optional recovery blocks encode alike.
pub open spec fn recovery_agrees(a: Option<Recovery>, b: Option<Recovery>) -> bool {
    match (a, b) {
        (None, None) => true,
        (Some(x), Some(y)) => recovery_image(x) == recovery_image(y),
        _ => false,
    }
}

/// The source generation a migration reads from what its two banks decoded
/// to: the mount's selection, except that two banks of one sequence must also
/// carry the same recovery block.
pub open spec fn spec_select_source(a: Result<Metadata, Error>, b: Result<Metadata, Error>) -> Result<Metadata, Error> {
    match spec_select(a, b) {
        Err(e) => Err(e),
        Ok((m, _)) => match (a, b) {
            (Ok(x), Ok(y)) => if x.sequence == y.sequence && !recovery_agrees(x.recovery, y.recovery) {
                Err(Error::Corrupt)
            } else {
                Ok(m)
            },
            _ => Ok(m),
        },
    }
}

/// Node `n7` carries record `n5` over: the empty slot stays empty; otherwise
/// identity, parent, version, length, kind, space and name are kept, and a
/// record that is not a file owns no runs.
pub open spec fn carried7(n7: Node7, n5: Node) -> bool {
    if n5.kind == Kind::Empty {
        n7 == empty_node7()
    } else {
        &&& n7.id == n5.id
        &&& n7.parent == n5.parent
        &&& n7.version == n5.version
        &&& n7.length == n5.length
        &&& n7.kind == n5.kind
        &&& n7.space == n5.space
        &&& n7.name_length == n5.name_length
        &&& n7.name@ == n5.spec_name() + Seq::new((32 - n5.name_length) as nat, |i: int| 0u8)
        &&& n5.kind != Kind::File ==> n7.extents_used == 0 && n7.extents == empty_node7().extents && n7.payload_crc32 == 0
    }
}

/// The runs `n7` names, as a payload plan.
pub open spec fn plan_of(n7: Node7) -> PayloadPlan {
    PayloadPlan { runs: n7.extents, used: n7.extents_used as usize }
}

/// File `n5` in slot `slot` of medium `c` checksums as recorded, and `n7`
/// names sound runs for it and its checksum.
pub open spec fn file_carried7(c: Map<u64, Seq<u8>>, slot: int, n5: Node, n7: Node7) -> bool {
    &&& spec_crc(source_bytes(c, slot, n5)) == n5.checksum
    &&& n7.payload_crc32 == spec_crc(source_bytes(c, slot, n5))
    &&& plan_of(n7).wf()
    &&& plan_of(n7).total() == sectors_for(n5.length as int)
}

/// The source device holds every sector of the older layout in full.
pub open spec fn source_present5(c: Map<u64, Seq<u8>>) -> bool {
    forall|s: u64| s < crate::SECTORS ==> #[trigger] c.dom().contains(s) && c[s].len() == 512
}

/// Both two-bank generations of a source that holds the whole older layout
/// are there to be read.
proof fn lemma_generations_present(c: Map<u64, Seq<u8>>, bank: u8)
    requires
        source_present5(c),
        bank <= 1,
    ensures
        generation_present(c, bank),
{
    assert forall|k: int| 0 <= k < 5 implies c.dom().contains(#[trigger] ((crate::format::spec_header_sector(bank) + k) as u64))
        && c[(crate::format::spec_header_sector(bank) + k) as u64].len() == 512 by {
        assert(((crate::format::spec_header_sector(bank) + k) as u64) < crate::SECTORS);
    }
    assert forall|k: int| 0 <= k < 7 implies c.dom().contains(#[trigger] ((crate::format::spec_recovery_sector(bank) + k) as u64))
        && c[(crate::format::spec_recovery_sector(bank) + k) as u64].len() == 512 by {
        assert(((crate::format::spec_recovery_sector(bank) + k) as u64) < crate::SECTORS);
    }
}

/// The refusal a migration meets before it converts anything, taking its
/// checks in order over a readable source `src` and target `t`: a zero
/// lineage, a source whose banks do not select, a malformed envelope, an
/// envelope or recovery block of another lineage, a target whose header
/// copies are not both zero. `None` when every one of them passes.
pub open spec fn migration_refusal7(src: Map<u64, Seq<u8>>, t: Map<u64, Seq<u8>>, lineage: Seq<u8>) -> Option<Error> {
    if lineage == Seq::new(16, |i: int| 0u8) {
        Some(Error::Invalid)
    } else {
        match spec_select_source(generation_at(src, 0), generation_at(src, 1)) {
            Err(e) => Some(e),
            Ok(m) => match envelope_lineage(src[ENVELOPE_SECTOR]) {
                Err(_) => Some(Error::Corrupt),
                Ok(found) => if found matches Some(l) && l != lineage {
                    Some(Error::Lineage)
                } else if m.recovery matches Some(rec) && rec.lineage@ != lineage {
                    Some(Error::Lineage)
                } else if !(zero_range(t[HEADER_SECTOR], 0, 512) && zero_range(t[(HEADER_SECTOR + 1) as u64], 0, 512)) {
                    Some(Error::Exists)
                } else {
                    None
                },
            },
        }
    }
}

/// Both devices answer every request, the source holds the older layout and
/// the target both header copies.
pub open spec fn migration_readable7(source_ok: bool, src: Map<u64, Seq<u8>>, target_ok: bool, t: Map<u64, Seq<u8>>) -> bool {
    &&& source_ok && target_ok
    &&& source_present5(src)
    &&& t.dom().contains(HEADER_SECTOR) && t.dom().contains((HEADER_SECTOR + 1) as u64)
}

/// A file slot's two data sectors lie in the older layout.
proof fn lemma_data_present(c: Map<u64, Seq<u8>>, slot: int, bank: u8)
    requires
        source_present5(c),
        0 <= slot < OBJECTS,
        bank <= 1,
    ensures
        crate::format::sectors_present(c, spec_data_sector(slot, bank), 2),
{
    assert forall|k: int| 0 <= k < 2 implies c.dom().contains(#[trigger] ((spec_data_sector(slot, bank) + k) as u64))
        && c[(spec_data_sector(slot, bank) + k) as u64].len() == 512 by {
        assert(((spec_data_sector(slot, bank) + k) as u64) < crate::SECTORS);
    }
}

/// A sound plan stays inside a target that holds the whole layout.
proof fn lemma_plan_inside(t: Map<u64, Seq<u8>>, plan: PayloadPlan)
    requires
        crate::volume7::mount::layout_present7(t),
        plan.wf(),
    ensures
        crate::volume6::runs_present(t, PAYLOAD_SECTOR, plan.runs@.take(plan.used as int)),
{
    let runs = plan.runs@.take(plan.used as int);
    assert forall|k: int, q: int| 0 <= k < runs.len() && 0 <= q < runs[k].sectors implies t.dom().contains(#[trigger] crate::volume6::run_sector_at(PAYLOAD_SECTOR, runs[k], q)) by {
        assert(runs[k] == plan.runs@[k]);
        assert(crate::volume6::run_sector_at(PAYLOAD_SECTOR, runs[k], q) < PAYLOAD_SECTOR + DATA_SECTORS);
    }
}

/// A retained record whose committed version is still live in `nodes` names a
/// file whose stored bytes checksum as recorded, equal the snapshot, and were
/// carried over with the snapshot's length and checksum.
pub open spec fn snapshot_consistent5(c: Map<u64, Seq<u8>>, nodes: Seq<Node>, n7: Seq<Node7>, r5: Record, snapshot: Seq<u8>) -> bool {
    match find_id(nodes, r5.receipt.id, 0) {
        Some(j) => nodes[j].version == r5.receipt.committed ==> {
            &&& nodes[j].kind == Kind::File
            &&& nodes[j].length as int == snapshot.len()
            &&& spec_crc(source_bytes(c, j, nodes[j])) == nodes[j].checksum
            &&& source_bytes(c, j, nodes[j]) == snapshot
            &&& n7[j].kind == Kind::File
            &&& n7[j].length as int == snapshot.len()
            &&& n7[j].payload_crc32 == spec_crc(snapshot)
        },
        None => true,
    }
}

/// Every file of the older table checksums as recorded on `c`.
pub open spec fn sources_sound5(c: Map<u64, Seq<u8>>, nodes: Seq<Node>) -> bool {
    forall|i: int| 0 <= i < OBJECTS && (#[trigger] nodes[i]).kind == Kind::File ==> spec_crc(source_bytes(c, i, nodes[i])) == nodes[i].checksum
}

/// Carrying retained record `r5` over is refused with `e`: a record without a
/// namespace is `Unsupported`; a cancellation without a reason, or a
/// committed snapshot that the live file contradicts, is `Corrupt`.
pub open spec fn record_refused5(c: Map<u64, Seq<u8>>, nodes: Seq<Node>, n7: Seq<Node7>, r5: Record, e: Error) -> bool {
    ||| e == Error::Unsupported && r5.namespace is None
    ||| e == Error::Corrupt && r5.namespace is Some && (match r5.admission {
        Some(a) => (a.state == AdmissionState::Cancelled && a.prevention is None)
            || (a.state == AdmissionState::Committed && !snapshot_consistent5(c, nodes, n7, r5, r5.bytes@.take(r5.receipt.length as int))),
        None => !snapshot_consistent5(c, nodes, n7, r5, r5.bytes@.take(r5.receipt.length as int)),
    })
}

/// The bytes retained record `r5` carries as its snapshot.
pub open spec fn snapshot5(r5: Record) -> Seq<u8> {
    r5.bytes@.take(r5.receipt.length as int)
}

/// Record `r7` carries retained record `r5` over: its scoped identity, its
/// retry, its versions, its snapshot's length and checksum, and its admission
/// outcome as a record state.
pub open spec fn record_carried7(r7: Record7, r5: Record) -> bool {
    &&& r5.namespace matches Some(ns) && r7.workspace == ns.0 && r7.instance == ns.1
    &&& r7.subject == r5.subject
    &&& r7.object == r5.receipt.id
    &&& r7.retry_epoch == r5.receipt.retry.epoch
    &&& r7.retry_key == r5.receipt.retry.key
    &&& r7.previous == r5.receipt.previous
    &&& r7.committed == r5.receipt.committed
    &&& r7.length == r5.receipt.length
    &&& r7.payload_crc32 == spec_crc(snapshot5(r5))
    &&& match r5.admission {
        None => r7.state == RecordState::DirectCommitted && r7.admission_number == 0 && r7.terminal == r5.receipt.committed
            && r7.prevention is None,
        Some(a) => r7.admission_number == a.number && match a.state {
            AdmissionState::Admitted => r7.state == RecordState::Admitted && r7.terminal == 0 && r7.prevention is None,
            AdmissionState::Cancelled => r7.state == RecordState::Cancelled && r7.terminal == a.terminal
                && a.prevention is Some && r7.prevention == a.prevention,
            AdmissionState::Committed => r7.state == RecordState::AdmittedCommitted && r7.terminal == a.terminal
                && r7.prevention is None,
        },
    }
}

/// Whether migration shares a live file's runs with a committed record: the
/// record's object is live and still at the committed version.
pub open spec fn shares_live5(r5: Record, nodes: Seq<Node>) -> bool {
    &&& (r5.admission is None || r5.admission->Some_0.state == AdmissionState::Committed)
    &&& find_id(nodes, r5.receipt.id, 0) matches Some(j) && nodes[j].version == r5.receipt.committed
}

/// Choose the source generation from the two banks' decodings.
fn select_source(a: Result<Metadata, Error>, b: Result<Metadata, Error>) -> (r: Result<Metadata, Error>)
    ensures
        r == spec_select_source(a, b),
{
    let picked = select(a, b);
    match picked {
        Err(e) => Err(e),
        Ok((m, _)) => {
            match (&a, &b) {
                (Ok(x), Ok(y)) => {
                    if x.sequence == y.sequence {
                        let agree = match (&x.recovery, &y.recovery) {
                            (None, None) => true,
                            (Some(p), Some(q)) => {
                                let left = p.encode();
                                let right = q.encode();
                                proof {
                                    lemma_recovery_image(left@, *p);
                                    lemma_recovery_image(right@, *q);
                                }
                                slices_equal(left.as_slice(), right.as_slice())
                            },
                            _ => false,
                        };
                        if !agree {
                            return Err(Error::Corrupt);
                        }
                    }
                    Ok(m)
                },
                _ => Ok(m),
            }
        },
    }
}

/// Both header copies of the target must read back zero.
fn require_blank_target<D: Disk>(target: &mut D) -> (r: Result<(), Error>)
    ensures
        final(target).contents() == old(target).contents(),
        r is Ok ==> {
            let c = old(target).contents();
            &&& c.dom().contains(HEADER_SECTOR) && c.dom().contains((HEADER_SECTOR + 1) as u64)
            &&& c[HEADER_SECTOR].len() == 512 && zero_range(c[HEADER_SECTOR], 0, 512)
            &&& c[(HEADER_SECTOR + 1) as u64].len() == 512 && zero_range(c[(HEADER_SECTOR + 1) as u64], 0, 512)
        },
        final(target).dependable() == old(target).dependable(),
        old(target).dependable() && old(target).contents().dom().contains(HEADER_SECTOR) && old(target).contents().dom().contains((HEADER_SECTOR + 1) as u64) ==> {
            let c = old(target).contents();
            &&& r is Ok <==> zero_range(c[HEADER_SECTOR], 0, 512) && zero_range(c[(HEADER_SECTOR + 1) as u64], 0, 512)
            &&& r is Err ==> r == Err::<(), Error>(Error::Exists)
        },
{
    let mut first = [0u8; 512];
    target.read(header_sector(0), &mut first)?;
    if !all_zero(&first) {
        return Err(Error::Exists);
    }
    let mut second = [0u8; 512];
    target.read(header_sector(1), &mut second)?;
    if !all_zero(&second) {
        return Err(Error::Exists);
    }
    Ok(())
}

/// A cancelled admission's retained cause; a cancellation without one cannot
/// be carried over.
fn map_prevention(reason: Option<PreventionReason>) -> (r: Result<PreventionReason, Error>)
    ensures
        match reason {
            Some(p) => r == Ok::<PreventionReason, Error>(p),
            None => r == Err::<PreventionReason, Error>(Error::Corrupt),
        },
{
    match reason {
        Some(PreventionReason::Unknown) => Ok(PreventionReason::Unknown),
        Some(PreventionReason::Requested) => Ok(PreventionReason::Requested),
        Some(PreventionReason::VersionConflict) => Ok(PreventionReason::VersionConflict),
        Some(PreventionReason::AuthorityLost) => Ok(PreventionReason::AuthorityLost),
        None => Err(Error::Corrupt),
    }
}

/// Carried-over slots find an object where the source finds it.
proof fn lemma_find_carried(n7: Seq<Node7>, n5: Seq<Node>, id: u32, from: int)
    requires
        n7.len() == NODES,
        n5.len() == OBJECTS,
        0 <= from,
        forall|i: int| 0 <= i < OBJECTS ==> #[trigger] carried7(n7[i], n5[i]),
        forall|i: int| OBJECTS <= i < NODES ==> #[trigger] n7[i] == empty_node7(),
    ensures
        find7(n7, id, from) == find_id(n5, id, from),
    decreases NODES - from,
{
    if from < NODES {
        lemma_find_carried(n7, n5, id, from + 1);
        if from < OBJECTS {
            assert(carried7(n7[from], n5[from]));
            assert(live7(n7[from], id) == holds_id(n5[from], id));
        } else {
            assert(n7[from] == empty_node7());
            assert(!live7(n7[from], id));
        }
    }
}


impl Volume7 {
    /// Carry every live source record into the slot it occupies. A file's
    /// bytes must checksum as recorded; they get freshly planned runs that are
    /// marked in the map, and their checksum in this layout.
    fn convert_live_nodes<D: Disk>(&mut self, source: &mut D, nodes: &[Node; OBJECTS]) -> (r: Result<(), Error>)
        requires
            old(self).wf(),
            forall|i: int| 0 <= i < OBJECTS ==> (#[trigger] nodes@[i]).name_length <= 32 && nodes@[i].length <= crate::MAX_FILE
                && nodes@[i].bank <= 1,
            forall|i: int| 0 <= i < NODES ==> #[trigger] old(self).nodes@[i] == empty_node7(),
        ensures
            final(self).wf(),
            final(self).header == old(self).header,
            final(self).records == old(self).records,
            final(self).fenced == old(self).fenced,
            final(self).recovered_from_header == old(self).recovered_from_header,
            final(source).contents() == old(source).contents(),
            r is Ok ==> {
                &&& forall|i: int| 0 <= i < OBJECTS ==> #[trigger] carried7(final(self).nodes@[i], nodes@[i])
                &&& forall|i: int| 0 <= i < OBJECTS && nodes@[i].kind == Kind::File ==> #[trigger] file_carried7(old(source).contents(), i, nodes@[i], final(self).nodes@[i])
                &&& forall|i: int| OBJECTS <= i < NODES ==> #[trigger] final(self).nodes@[i] == empty_node7()
            },
            final(source).dependable() == old(source).dependable(),
            old(source).dependable() && source_present5(old(source).contents()) && r is Err ==> r == Err::<(), Error>(Error::Full)
                || (r == Err::<(), Error>(Error::Corrupt) && !sources_sound5(old(source).contents(), nodes@)),
            old(source).dependable() && source_present5(old(source).contents()) && r == Err::<(), Error>(Error::Full)
                ==> exists|i: int| 0 <= i < OBJECTS && (#[trigger] nodes@[i]).kind == Kind::File
                && greedy7(final(self).map@, Seq::empty(), sectors_for(nodes@[i].length as int)) is Err,
    {
        let ghost c = source.contents();
        let mut slot: usize = 0;
        while slot < OBJECTS
            invariant
                0 <= slot <= OBJECTS,
                self.wf(),
                self.header == old(self).header,
                self.records == old(self).records,
                self.fenced == old(self).fenced,
                self.recovered_from_header == old(self).recovered_from_header,
                source.contents() == c,
                source.dependable() == old(source).dependable(),
                c == old(source).contents(),
                forall|i: int| 0 <= i < OBJECTS ==> (#[trigger] nodes@[i]).name_length <= 32 && nodes@[i].length <= crate::MAX_FILE
                    && nodes@[i].bank <= 1,
                forall|i: int| 0 <= i < slot ==> #[trigger] carried7(self.nodes@[i], nodes@[i]),
                forall|i: int| 0 <= i < slot && nodes@[i].kind == Kind::File ==> #[trigger] file_carried7(c, i, nodes@[i], self.nodes@[i]),
                forall|i: int| slot <= i < NODES ==> #[trigger] self.nodes@[i] == empty_node7(),
            decreases OBJECTS - slot,
        {
            let old_node = nodes[slot];
            assert(old_node == nodes@[slot as int]);
            if old_node.kind == Kind::Empty {
                proof {
                    assert(self.nodes@[slot as int] == empty_node7());
                }
                slot = slot + 1;
                continue;
            }
            let mut name = [0u8; 32];
            let zero = [0u8; 32];
            proof {
                assert(zero@ =~= Seq::new(32, |i: int| 0u8));
                assert(name@ == Seq::new(32, |i: int| 0u8));
            }
            put(&mut name, 0, old_node.name());
            let mut node = Node7 {
                id: old_node.id,
                parent: old_node.parent,
                version: old_node.version,
                length: old_node.length as u32,
                kind: old_node.kind,
                space: old_node.space,
                extents_used: 0,
                extents: Node7::empty().extents,
                name_length: old_node.name_length,
                name,
                payload_crc32: 0,
            };
            proof {
                assert(node.name@ =~= old_node.spec_name() + Seq::new((32 - old_node.name_length) as nat, |i: int| 0u8));
            }
            if old_node.kind == Kind::File {
                let mut data = [0u8; 1024];
                proof {
                    if source_present5(c) {
                        lemma_data_present(c, slot as int, old_node.bank);
                    }
                }
                read_sectors(source, data_sector(slot, old_node.bank), 2, &mut data)?;
                let length = old_node.length as usize;
                let bytes = vstd::slice::slice_subrange(data.as_slice(), 0, length);
                let checksum = crc(bytes);
                proof {
                    assert(bytes@ == source_bytes(c, slot as int, old_node));
                }
                if checksum != old_node.checksum {
                    proof {
                        assert(nodes@[slot as int].kind == Kind::File);
                    }
                    return Err(Error::Corrupt);
                }
                let plan = match plan_payload(self.map.as_slice(), length) {
                    Ok(plan) => plan,
                    Err(e) => {
                        proof {
                            assert(nodes@[slot as int].kind == Kind::File);
                            assert(greedy7(self.map@, Seq::empty(), sectors_for(nodes@[slot as int].length as int)) is Err);
                        }
                        return Err(e);
                    },
                };
                reserve_plan(&mut self.map, &plan);
                node.extents_used = plan.used as u8;
                node.extents = plan.runs;
                node.payload_crc32 = checksum;
                proof {
                    assert(plan_of(node) == plan);
                }
            }
            let ghost before = self.nodes@;
            self.nodes[slot] = node;
            proof {
                assert(self.nodes@ == before.update(slot as int, node));
                assert forall|i: int| 0 <= i < NODES implies (#[trigger] self.nodes@[i]).name_length <= 32 && self.nodes@[i].extents_used <= 8 by {
                    if i != slot {
                        assert(self.nodes@[i] == before[i]);
                    }
                }
                assert forall|i: int| 0 <= i < slot + 1 implies #[trigger] carried7(self.nodes@[i], nodes@[i]) by {
                    if i != slot {
                        assert(self.nodes@[i] == before[i]);
                    }
                }
                assert forall|i: int| 0 <= i < slot + 1 && nodes@[i].kind == Kind::File implies #[trigger] file_carried7(c, i, nodes@[i], self.nodes@[i]) by {
                    if i != slot {
                        assert(self.nodes@[i] == before[i]);
                    }
                }
                assert forall|i: int| slot + 1 <= i < NODES implies #[trigger] self.nodes@[i] == empty_node7() by {
                    assert(self.nodes@[i] == before[i]);
                }
            }
            slot = slot + 1;
        }
        Ok(())
    }
}


/// The runs record `r7` names, as a payload plan.
pub open spec fn record_plan(r7: Record7) -> PayloadPlan {
    PayloadPlan { runs: r7.extents, used: r7.extents_used as usize }
}

/// The first live source slot holding object `id`.
fn find_live5(nodes: &[Node; OBJECTS], id: u32) -> (r: Option<usize>)
    ensures
        match r {
            Some(i) => find_id(nodes@, id, 0) == Some(i as int),
            None => find_id(nodes@, id, 0) is None,
        },
{
    proof {
        crate::format::lemma_find_id(nodes@, id, 0);
    }
    let mut i: usize = 0;
    while i < OBJECTS
        invariant
            0 <= i <= OBJECTS,
            find_id(nodes@, id, 0) == find_id(nodes@, id, i as int),
        decreases OBJECTS - i,
    {
        if nodes[i].id == id && nodes[i].kind != Kind::Empty {
            return Some(i);
        }
        i = i + 1;
    }
    None
}

impl Volume7 {
    /// The runs a committed record may share: those of its object's carried
    /// file when the source still holds it at the committed version, whose
    /// bytes must then be exactly the snapshot.
    fn current_snapshot_extents<D: Disk>(&self, source: &mut D, nodes: &[Node; OBJECTS], record: &Record, snapshot: &[u8])
        -> (r: Result<Option<(u8, [Extent; 8])>, Error>)
        requires
            forall|i: int| 0 <= i < OBJECTS ==> (#[trigger] nodes@[i]).name_length <= 32 && nodes@[i].length <= crate::MAX_FILE
                && nodes@[i].bank <= 1,
            forall|i: int| 0 <= i < OBJECTS ==> #[trigger] carried7(self.nodes@[i], nodes@[i]),
            forall|i: int| 0 <= i < OBJECTS && nodes@[i].kind == Kind::File ==> #[trigger] file_carried7(old(source).contents(), i, nodes@[i], self.nodes@[i]),
            snapshot@ == snapshot5(*record),
        ensures
            final(source).contents() == old(source).contents(),
            r matches Ok(found) ==> match found {
                None => !(find_id(nodes@, record.receipt.id, 0) matches Some(j) && nodes@[j].version == record.receipt.committed),
                Some(shared) => find_id(nodes@, record.receipt.id, 0) matches Some(j) && {
                    &&& nodes@[j].version == record.receipt.committed
                    &&& nodes@[j].kind == Kind::File
                    &&& nodes@[j].length as int == snapshot@.len()
                    &&& snapshot@ == source_bytes(old(source).contents(), j, nodes@[j])
                    &&& shared.0 == self.nodes@[j].extents_used
                    &&& shared.1 == self.nodes@[j].extents
                },
            },
            final(source).dependable() == old(source).dependable(),
            old(source).dependable() && source_present5(old(source).contents()) ==> (r is Ok <==> snapshot_consistent5(
                old(source).contents(), nodes@, self.nodes@, *record, snapshot@)) && (r is Err ==> r == Err::<Option<(u8, [Extent; 8])>, Error>(Error::Corrupt)),
    {
        let ghost c = source.contents();
        let slot = match find_live5(nodes, record.receipt.id) {
            None => {
                return Ok(None);
            },
            Some(s) => s,
        };
        proof {
            crate::format::lemma_find_id(nodes@, record.receipt.id, 0);
        }
        let live = nodes[slot];
        assert(live == nodes@[slot as int]);
        if live.version != record.receipt.committed {
            return Ok(None);
        }
        if live.kind != Kind::File || live.length as usize != snapshot.len() {
            return Err(Error::Corrupt);
        }
        let mut data = [0u8; 1024];
        proof {
            if source_present5(c) {
                lemma_data_present(c, slot as int, live.bank);
            }
        }
        read_sectors(source, data_sector(slot, live.bank), 2, &mut data)?;
        let length = live.length as usize;
        let bytes = vstd::slice::slice_subrange(data.as_slice(), 0, length);
        proof {
            assert(bytes@ == source_bytes(c, slot as int, live));
        }
        if crc(bytes) != live.checksum || !slices_equal(bytes, snapshot) {
            return Err(Error::Corrupt);
        }
        let upgraded = self.nodes[slot];
        if upgraded.kind != Kind::File || upgraded.length as usize != length || upgraded.payload_crc32 != crc(snapshot) {
            return Err(Error::Corrupt);
        }
        Ok(Some((upgraded.extents_used, upgraded.extents)))
    }
}


/// Retained source slot `k`, if the source carries a recovery block and `k`
/// is one of its slots.
pub open spec fn slot5(recovery: Option<Recovery>, k: int) -> Option<Record> {
    match recovery {
        Some(rec) => if 0 <= k < crate::recovery::RETAINED {
            rec.records@[k]
        } else {
            None
        },
        None => None,
    }
}

/// Retained slot `s7` carries source slot `s5` over: an empty slot stays
/// empty; a record is carried with sound runs for its snapshot, and one that
/// migration lets share a live file names that file's runs, whose source
/// bytes are exactly the snapshot.
pub open spec fn record_slot_carried7(c: Map<u64, Seq<u8>>, n5: Seq<Node>, n7: Seq<Node7>, s7: Option<Record7>, s5: Option<Record>) -> bool {
    match s5 {
        None => s7 is None,
        Some(r5) => s7 matches Some(r7) && {
            &&& record_carried7(r7, r5)
            &&& record_plan(r7).wf()
            &&& record_plan(r7).total() == sectors_for(r5.receipt.length as int)
            &&& shares_live5(r5, n5) ==> (find_id(n5, r5.receipt.id, 0) matches Some(j) && {
                &&& n5[j].kind == Kind::File
                &&& snapshot5(r5) == source_bytes(c, j, n5[j])
                &&& r7.extents_used == n7[j].extents_used
                &&& r7.extents == n7[j].extents
            })
        },
    }
}

impl Volume7 {
    /// Carry every retained source record into the slot of the same index.
    /// A record without a scoped namespace cannot be carried, nor a
    /// cancellation without its cause. A committed record shares its object's
    /// runs when the source still holds the committed version; any other
    /// record gets freshly planned runs of its own.
    fn convert_records<D: Disk>(&mut self, source: &mut D, nodes: &[Node; OBJECTS], recovery: &Option<Recovery>) -> (r: Result<(), Error>)
        requires
            old(self).wf(),
            forall|i: int| 0 <= i < OBJECTS ==> (#[trigger] nodes@[i]).name_length <= 32 && nodes@[i].length <= crate::MAX_FILE
                && nodes@[i].bank <= 1,
            forall|i: int| 0 <= i < OBJECTS ==> #[trigger] carried7(old(self).nodes@[i], nodes@[i]),
            forall|i: int| 0 <= i < OBJECTS && nodes@[i].kind == Kind::File ==> #[trigger] file_carried7(old(source).contents(), i, nodes@[i], old(self).nodes@[i]),
            forall|k: int| 0 <= k < RETAINED ==> #[trigger] old(self).records@[k] is None,
            recovery matches Some(rec) ==> rec.inv(),
        ensures
            final(self).wf(),
            final(self).header == old(self).header,
            final(self).nodes == old(self).nodes,
            final(self).fenced == old(self).fenced,
            final(self).recovered_from_header == old(self).recovered_from_header,
            final(source).contents() == old(source).contents(),
            r is Ok ==> forall|k: int| 0 <= k < RETAINED ==> #[trigger] record_slot_carried7(old(source).contents(), nodes@, final(self).nodes@, final(self).records@[k], slot5(*recovery, k)),
            final(source).dependable() == old(source).dependable(),
            recovery is None ==> r is Ok && final(self).records == old(self).records && final(self).map == old(self).map,
            old(source).dependable() && source_present5(old(source).contents()) && r == Err::<(), Error>(Error::Full)
                ==> exists|k: int| 0 <= k < crate::recovery::RETAINED && (#[trigger] slot5(*recovery, k) matches Some(r5)
                && greedy7(final(self).map@, Seq::empty(), sectors_for(r5.receipt.length as int)) is Err),
            old(source).dependable() && source_present5(old(source).contents()) && r is Err ==> r == Err::<(), Error>(Error::Full)
                || exists|k: int| 0 <= k < crate::recovery::RETAINED && (#[trigger] slot5(*recovery, k) matches Some(r5)
                    && record_refused5(old(source).contents(), nodes@, old(self).nodes@, r5, r->Err_0)),
    {
        let ghost c = source.contents();
        let rec = match recovery {
            None => {
                return Ok(());
            },
            Some(r) => r,
        };
        let mut index: usize = 0;
        while index < crate::recovery::RETAINED
            invariant
                0 <= index <= crate::recovery::RETAINED,
                self.wf(),
                self.header == old(self).header,
                self.nodes == old(self).nodes,
                self.fenced == old(self).fenced,
                self.recovered_from_header == old(self).recovered_from_header,
                source.contents() == c,
                source.dependable() == old(source).dependable(),
                c == old(source).contents(),
                *recovery == Some(*rec),
                rec.inv(),
                forall|i: int| 0 <= i < OBJECTS ==> (#[trigger] nodes@[i]).name_length <= 32 && nodes@[i].length <= crate::MAX_FILE
                    && nodes@[i].bank <= 1,
                forall|i: int| 0 <= i < OBJECTS ==> #[trigger] carried7(self.nodes@[i], nodes@[i]),
                forall|i: int| 0 <= i < OBJECTS && nodes@[i].kind == Kind::File ==> #[trigger] file_carried7(c, i, nodes@[i], self.nodes@[i]),
                forall|k: int| 0 <= k < index ==> #[trigger] record_slot_carried7(c, nodes@, self.nodes@, self.records@[k], slot5(*recovery, k)),
                forall|k: int| index <= k < RETAINED ==> #[trigger] self.records@[k] is None,
            decreases crate::recovery::RETAINED - index,
        {
            let old_rec = match rec.records[index] {
                None => {
                    proof {
                        assert(self.records@[index as int] is None);
                    }
                    index = index + 1;
                    continue;
                },
                Some(r) => r,
            };
            assert(slot5(*recovery, index as int) == Some(old_rec));
            let (workspace, instance) = match old_rec.namespace {
                None => {
                    proof {
                        assert(record_refused5(c, nodes@, old(self).nodes@, old_rec, Error::Unsupported));
                    }
                    return Err(Error::Unsupported);
                },
                Some(ns) => ns,
            };
            let (state, admission_number, terminal, prevention) = match old_rec.admission {
                None => (RecordState::DirectCommitted, 0u64, old_rec.receipt.committed, None),
                Some(admission) => match admission.state {
                    AdmissionState::Admitted => (RecordState::Admitted, admission.number, 0u64, None),
                    AdmissionState::Cancelled => {
                        let reason = match map_prevention(admission.prevention) {
                            Ok(reason) => reason,
                            Err(e) => {
                                proof {
                                    assert(record_refused5(c, nodes@, old(self).nodes@, old_rec, Error::Corrupt));
                                }
                                return Err(e);
                            },
                        };
                        (RecordState::Cancelled, admission.number, admission.terminal, Some(reason))
                    },
                    AdmissionState::Committed => (RecordState::AdmittedCommitted, admission.number, admission.terminal, None),
                },
            };
            let length = old_rec.receipt.length as usize;
            let bytes = vstd::slice::slice_subrange(old_rec.bytes.as_slice(), 0, length);
            assert(bytes@ == snapshot5(old_rec));
            let committed = state == RecordState::DirectCommitted || state == RecordState::AdmittedCommitted;
            let alias = if committed {
                match self.current_snapshot_extents(source, nodes, &old_rec, bytes) {
                    Ok(found) => found,
                    Err(e) => {
                        proof {
                            if source_present5(c) && old(source).dependable() {
                                assert(record_refused5(c, nodes@, old(self).nodes@, old_rec, Error::Corrupt));
                            }
                        }
                        return Err(e);
                    },
                }
            } else {
                None
            };
            let ghost shared = alias is Some;
            let (extents_used, extents) = match alias {
                Some(found) => found,
                None => {
                    let plan = match plan_payload(self.map.as_slice(), length) {
                        Ok(plan) => plan,
                        Err(e) => {
                            proof {
                                assert(slot5(*recovery, index as int) == Some(old_rec));
                                assert(greedy7(self.map@, Seq::empty(), sectors_for(old_rec.receipt.length as int)) is Err);
                            }
                            return Err(e);
                        },
                    };
                    reserve_plan(&mut self.map, &plan);
                    proof {
                        assert(PayloadPlan { runs: plan.runs, used: (plan.used as u8) as usize } == plan);
                    }
                    (plan.used as u8, plan.runs)
                },
            };
            let record = Record7 {
                subject: old_rec.subject,
                workspace,
                object: old_rec.receipt.id,
                instance,
                retry_epoch: old_rec.receipt.retry.epoch,
                retry_key: old_rec.receipt.retry.key,
                previous: old_rec.receipt.previous,
                committed: old_rec.receipt.committed,
                admission_number,
                terminal,
                length: length as u32,
                payload_crc32: crc(bytes),
                state,
                prevention,
                extents_used,
                extents,
            };
            proof {
                crate::format::lemma_find_id(nodes@, old_rec.receipt.id, 0);
                if shared {
                    let j = find_id(nodes@, old_rec.receipt.id, 0)->Some_0;
                    assert(file_carried7(c, j, nodes@[j], self.nodes@[j]));
                    assert(record_plan(record) == plan_of(self.nodes@[j]));
                } else {
                    assert(!shares_live5(old_rec, nodes@));
                }
                assert(record_plan(record).wf());
                assert(record_plan(record).total() == sectors_for(old_rec.receipt.length as int));
                assert(record_carried7(record, old_rec));
                assert(record_slot_carried7(c, nodes@, self.nodes@, Some(record), Some(old_rec)));
            }
            let ghost before = self.records@;
            self.records[index] = Some(record);
            proof {
                assert(self.records@ == before.update(index as int, Some(record)));
                assert forall|k: int| 0 <= k < RETAINED implies (#[trigger] self.records@[k] matches Some(r) ==> r.extents_used <= 8) by {
                    if k != index {
                        assert(self.records@[k] == before[k]);
                    }
                }
                assert forall|k: int| 0 <= k < index + 1 implies #[trigger] record_slot_carried7(c, nodes@, self.nodes@, self.records@[k], slot5(*recovery, k)) by {
                    if k != index {
                        assert(self.records@[k] == before[k]);
                    }
                }
                assert forall|k: int| index + 1 <= k < RETAINED implies #[trigger] self.records@[k] is None by {
                    assert(self.records@[k] == before[k]);
                }
            }
            index = index + 1;
        }
        proof {
            assert forall|k: int| 0 <= k < RETAINED implies #[trigger] record_slot_carried7(c, nodes@, self.nodes@, self.records@[k], slot5(*recovery, k)) by {
                if k >= crate::recovery::RETAINED {
                    assert(self.records@[k] is None);
                }
            }
        }
        Ok(())
    }
}


/// The runs owner `o` of a generation holds on its own: node slots first,
/// then retained slots.
pub open spec fn owner7(nodes: Seq<Node7>, receipts: Seq<Option<Record7>>, o: int) -> Seq<Extent> {
    if o < NODES {
        node_owned7(nodes[o])
    } else {
        record_owned7(receipts[o - NODES], nodes)
    }
}

/// In a generation whose owned runs are disjoint, two owners share no sector.
proof fn lemma_owners_apart(nodes: Seq<Node7>, receipts: Seq<Option<Record7>>, a: int, b: int, s: int)
    requires
        disjoint7(owned7(nodes, receipts)),
        0 <= a < b < NODES + RETAINED,
    ensures
        !(holds7(owner7(nodes, receipts, a), s) && holds7(owner7(nodes, receipts, b), s)),
{
    if holds7(owner7(nodes, receipts, a), s) && holds7(owner7(nodes, receipts, b), s) {
        let pa = owner7(nodes, receipts, a);
        let pb = owner7(nodes, receipts, b);
        let ka = choose|k: int| 0 <= k < pa.len() && #[trigger] pa[k].start <= s < pa[k].start + pa[k].sectors;
        let kb = choose|k: int| 0 <= k < pb.len() && #[trigger] pb[k].start <= s < pb[k].start + pb[k].sectors;
        let total = NODES + RETAINED;
        let whole = owned7(nodes, receipts);
        let before_a = owned_prefix7(nodes, receipts, a);
        let upto_a = owned_prefix7(nodes, receipts, a + 1);
        let before_b = owned_prefix7(nodes, receipts, b);
        let upto_b = owned_prefix7(nodes, receipts, b + 1);
        assert(upto_a == before_a + pa);
        assert(upto_b == before_b + pb);
        lemma_owned_prefix(nodes, receipts, a + 1, total);
        lemma_owned_prefix(nodes, receipts, b + 1, total);
        lemma_owned_prefix(nodes, receipts, a + 1, b);
        let ia = before_a.len() + ka;
        let ib = before_b.len() + kb;
        assert(whole.take(upto_a.len() as int)[ia] == upto_a[ia]);
        assert(upto_a[ia] == pa[ka]);
        assert(whole.take(upto_b.len() as int)[ib] == upto_b[ib]);
        assert(upto_b[ib] == pb[kb]);
        assert(whole[ia] == pa[ka]);
        assert(whole[ib] == pb[kb]);
        assert(ia < ib);
        assert(overlap(whole[ia], whole[ib]));
    }
}

/// Content whose run sectors are all unchanged is unchanged.
proof fn lemma_content_kept(c1: Map<u64, Seq<u8>>, c2: Map<u64, Seq<u8>>, runs: Seq<Extent>, length: int)
    requires
        forall|k: int| 0 <= k < runs.len() ==> #[trigger] runs[k].start + runs[k].sectors <= DATA_SECTORS,
        0 <= length <= 512 * total_sectors(runs),
        forall|s: u64| holds7(runs, s - PAYLOAD_SECTOR) ==> #[trigger] c2[s] == c1[s],
    ensures
        content7(c2, runs, length) == content7(c1, runs, length),
{
    assert forall|p: int| 0 <= p < length implies #[trigger] content7(c2, runs, length)[p] == content7(c1, runs, length)[p] by {
        assert(runs.take(runs.len() as int) =~= runs);
        let (k, q) = lemma_locate(runs, runs.len() as int, p);
        lemma_payload_byte(c1, PAYLOAD_SECTOR, runs, k, q);
        lemma_payload_byte(c2, PAYLOAD_SECTOR, runs, k, q);
        let x = (PAYLOAD_SECTOR + runs[k].start + q / 512) as u64;
        assert(runs[k].start <= x - PAYLOAD_SECTOR < runs[k].start + runs[k].sectors);
        assert(holds7(runs, x - PAYLOAD_SECTOR));
    }
    assert(content7(c2, runs, length) =~= content7(c1, runs, length));
}


/// A run count that covers `length` bytes holds at least that many.
proof fn lemma_sectors_cover(length: int)
    requires
        0 <= length,
    ensures
        512 * sectors_for(length) >= length,
{
    let q = (length + 511) / 512;
    assert(512 * q + (length + 511) % 512 == length + 511);
    assert(0 <= (length + 511) % 512 < 512);
}

/// Live source file `i` reads back on `c` from its carried runs.
pub open spec fn node_content_ok(c: Map<u64, Seq<u8>>, source: Map<u64, Seq<u8>>, n5: Seq<Node>, n7: Seq<Node7>, i: int) -> bool {
    n5[i].kind == Kind::File ==> content7(c, n7[i].extents@.take(n7[i].extents_used as int), n7[i].length as int) == source_bytes(source, i, n5[i])
}

/// Retained source slot `s5` reads back on `c` from the runs its carried
/// record names.
pub open spec fn record_content_ok(c: Map<u64, Seq<u8>>, s7: Option<Record7>, s5: Option<Record>) -> bool {
    s5 matches Some(r5) ==> (s7 matches Some(r7) && content7(c, r7.extents@.take(r7.extents_used as int), r7.length as int) == snapshot5(r5))
}

impl Volume7 {
    /// Copy every live file's bytes and every record snapshot that shares no
    /// live file into the runs the converted generation names. Nothing below
    /// the payload region is written.
    fn stage_payloads<S: Disk, D: Disk>(&self, source: &mut S, target: &mut D, nodes: &[Node; OBJECTS], recovery: &Option<Recovery>)
        -> (r: Result<(), Error>)
        requires
            self.wf(),
            disjoint7(owned7(self.nodes@, self.records@)),
            forall|i: int| 0 <= i < OBJECTS ==> (#[trigger] nodes@[i]).name_length <= 32 && nodes@[i].length <= crate::MAX_FILE
                && nodes@[i].bank <= 1,
            forall|i: int| 0 <= i < OBJECTS ==> #[trigger] carried7(self.nodes@[i], nodes@[i]),
            forall|i: int| 0 <= i < OBJECTS && nodes@[i].kind == Kind::File ==> #[trigger] file_carried7(old(source).contents(), i, nodes@[i], self.nodes@[i]),
            forall|i: int| OBJECTS <= i < NODES ==> #[trigger] self.nodes@[i] == empty_node7(),
            forall|k: int| 0 <= k < RETAINED ==> #[trigger] record_slot_carried7(old(source).contents(), nodes@, self.nodes@, self.records@[k], slot5(*recovery, k)),
            recovery matches Some(rec) ==> rec.inv(),
        ensures
            final(source).contents() == old(source).contents(),
            r is Ok ==> {
                let c = final(target).contents();
                &&& c.dom() == old(target).contents().dom()
                &&& forall|s: u64| s < PAYLOAD_SECTOR ==> #[trigger] c[s] == old(target).contents()[s]
                &&& forall|i: int| 0 <= i < OBJECTS ==> #[trigger] node_content_ok(c, old(source).contents(), nodes@, self.nodes@, i)
                &&& forall|k: int| 0 <= k < RETAINED ==> #[trigger] record_content_ok(c, self.records@[k], slot5(*recovery, k))
            },
            final(source).dependable() == old(source).dependable(),
            final(target).dependable() == old(target).dependable(),
            old(source).dependable() && old(target).dependable() && source_present5(old(source).contents())
                && crate::volume7::mount::layout_present7(old(target).contents()) ==> r is Ok,
    {
        let ghost src = source.contents();
        let ghost t0 = target.contents();
        let ghost n7 = self.nodes@;
        let ghost recs = self.records@;
        let mut slot: usize = 0;
        while slot < OBJECTS
            invariant
                0 <= slot <= OBJECTS,
                self.wf(),
                n7 == self.nodes@,
                recs == self.records@,
                disjoint7(owned7(n7, recs)),
                source.contents() == src,
                src == old(source).contents(),
                t0 == old(target).contents(),
                forall|i: int| 0 <= i < OBJECTS ==> (#[trigger] nodes@[i]).name_length <= 32 && nodes@[i].length <= crate::MAX_FILE
                    && nodes@[i].bank <= 1,
                forall|i: int| 0 <= i < OBJECTS ==> #[trigger] carried7(n7[i], nodes@[i]),
                forall|i: int| 0 <= i < OBJECTS && nodes@[i].kind == Kind::File ==> #[trigger] file_carried7(src, i, nodes@[i], n7[i]),
                target.contents().dom() == t0.dom(),
                source.dependable() == old(source).dependable(),
                target.dependable() == old(target).dependable(),
                forall|s: u64| s < PAYLOAD_SECTOR ==> #[trigger] target.contents()[s] == t0[s],
                forall|i: int| 0 <= i < slot ==> #[trigger] node_content_ok(target.contents(), src, nodes@, n7, i),
            decreases OBJECTS - slot,
        {
            let old_node = nodes[slot];
            assert(old_node == nodes@[slot as int]);
            if old_node.kind != Kind::File {
                slot = slot + 1;
                continue;
            }
            let mut data = [0u8; 1024];
            proof {
                if source_present5(src) {
                    lemma_data_present(src, slot as int, old_node.bank);
                }
            }
            read_sectors(source, data_sector(slot, old_node.bank), 2, &mut data)?;
            let length = old_node.length as usize;
            let bytes = vstd::slice::slice_subrange(data.as_slice(), 0, length);
            assert(bytes@ == source_bytes(src, slot as int, old_node));
            assert(file_carried7(src, slot as int, old_node, self.nodes@[slot as int]));
            if crc(bytes) != old_node.checksum {
                return Err(Error::Corrupt);
            }
            let new = self.nodes[slot];
            assert(new == n7[slot as int]);
            let plan = PayloadPlan { runs: new.extents, used: new.extents_used as usize };
            proof {
                assert(file_carried7(src, slot as int, old_node, new));
                assert(carried7(new, old_node));
                assert(new.length as int == length as int);
                assert(plan == plan_of(new));
                lemma_sectors_cover(length as int);
            }
            let ghost c1 = target.contents();
            proof {
                if crate::volume7::mount::layout_present7(t0) {
                    lemma_plan_inside(t0, plan);
                    assert forall|k: int, q: int| 0 <= k < plan.runs@.take(plan.used as int).len() && 0 <= q < plan.runs@.take(plan.used as int)[k].sectors
                        implies target.contents().dom().contains(#[trigger] crate::volume6::run_sector_at(PAYLOAD_SECTOR, plan.runs@.take(plan.used as int)[k], q)) by {
                        assert(t0.dom().contains(crate::volume6::run_sector_at(PAYLOAD_SECTOR, plan.runs@.take(plan.used as int)[k], q)));
                    }
                }
            }
            write_runs(target, PAYLOAD_SECTOR, &plan, bytes)?;
            proof {
                let c2 = target.contents();
                let runs = new.extents@.take(new.extents_used as int);
                assert(runs == plan.runs@.take(plan.used as int));
                assert forall|p: int| 0 <= p < length implies #[trigger] content7(c2, runs, length as int)[p] == bytes@[p] by {
                    assert(payload_byte(c2, PAYLOAD_SECTOR, runs, p) == padded_at(bytes@, p));
                }
                assert(content7(c2, runs, new.length as int) =~= bytes@);
                assert forall|s: u64| s < PAYLOAD_SECTOR implies #[trigger] c2[s] == t0[s] by {
                    assert(!covered(plan.runs@, plan.used as int, s - PAYLOAD_SECTOR));
                }
                assert forall|i: int| 0 <= i < slot + 1 implies #[trigger] node_content_ok(c2, src, nodes@, n7, i) by {
                    if i == slot {
                        assert(n7[i] == new);
                    }
                    if i < slot && nodes@[i].kind == Kind::File {
                        assert(node_content_ok(c1, src, nodes@, n7, i));
                        let f = n7[i];
                        let fr = f.extents@.take(f.extents_used as int);
                        assert(file_carried7(src, i, nodes@[i], f));
                        assert(carried7(f, nodes@[i]));
                        assert(owner7(n7, recs, i) == fr);
                        assert(owner7(n7, recs, slot as int) == runs);
                        assert forall|x: u64| holds7(fr, x - PAYLOAD_SECTOR) implies #[trigger] c2[x] == c1[x] by {
                            lemma_owners_apart(n7, recs, i, slot as int, x - PAYLOAD_SECTOR);
                            if covered(plan.runs@, plan.used as int, x - PAYLOAD_SECTOR) {
                                let k = choose|k: int| 0 <= k < plan.used && #[trigger] plan.runs@[k].start <= x - PAYLOAD_SECTOR < plan.runs@[k].start + plan.runs@[k].sectors;
                                assert(runs[k] == plan.runs@[k]);
                            }
                        }
                        assert forall|k: int| 0 <= k < fr.len() implies #[trigger] fr[k].start + fr[k].sectors <= DATA_SECTORS by {
                            assert(fr[k] == plan_of(f).runs@[k]);
                        }
                        lemma_sectors_cover(f.length as int);
                        lemma_content_kept(c1, c2, fr, f.length as int);
                    }
                }
            }
            slot = slot + 1;
        }
        let rec = match recovery {
            None => {
                return Ok(());
            },
            Some(r) => r,
        };
        let mut index: usize = 0;
        while index < crate::recovery::RETAINED
            invariant
                0 <= index <= crate::recovery::RETAINED,
                self.wf(),
                n7 == self.nodes@,
                recs == self.records@,
                disjoint7(owned7(n7, recs)),
                source.contents() == src,
                *recovery == Some(*rec),
                rec.inv(),
                src == old(source).contents(),
                t0 == old(target).contents(),
                forall|i: int| 0 <= i < OBJECTS ==> #[trigger] carried7(n7[i], nodes@[i]),
                forall|i: int| 0 <= i < OBJECTS && nodes@[i].kind == Kind::File ==> #[trigger] file_carried7(src, i, nodes@[i], n7[i]),
                forall|i: int| OBJECTS <= i < NODES ==> #[trigger] n7[i] == empty_node7(),
                forall|k: int| 0 <= k < RETAINED ==> #[trigger] record_slot_carried7(src, nodes@, n7, recs[k], slot5(*recovery, k)),
                target.contents().dom() == t0.dom(),
                source.dependable() == old(source).dependable(),
                target.dependable() == old(target).dependable(),
                forall|s: u64| s < PAYLOAD_SECTOR ==> #[trigger] target.contents()[s] == t0[s],
                forall|i: int| 0 <= i < OBJECTS ==> #[trigger] node_content_ok(target.contents(), src, nodes@, n7, i),
                forall|k: int| 0 <= k < index ==> #[trigger] record_content_ok(target.contents(), recs[k], slot5(*recovery, k)),
            decreases crate::recovery::RETAINED - index,
        {
            assert(slot5(*recovery, index as int) == rec.records@[index as int]);
            let old_rec = match rec.records[index] {
                None => {
                    index = index + 1;
                    continue;
                },
                Some(r) => r,
            };
            assert(record_slot_carried7(src, nodes@, n7, recs[index as int], Some(old_rec)));
            let new = match self.records[index] {
                None => {
                    return Err(Error::Corrupt);
                },
                Some(r) => r,
            };
            assert(recs[index as int] == Some(new));
            if aliases_current(&new, &self.nodes) {
                proof {
                    let j = find7(n7, new.object, 0)->Some_0;
                    lemma_find_carried(n7, nodes@, new.object, 0);
                    crate::format::lemma_find_id(nodes@, new.object, 0);
                    assert(carried7(n7[j], nodes@[j]));
                    assert(shares_live5(old_rec, nodes@));
                    assert(node_content_ok(target.contents(), src, nodes@, n7, j));
                    assert(new.extents@.take(new.extents_used as int) == n7[j].extents@.take(n7[j].extents_used as int));
                }
                index = index + 1;
                continue;
            }
            let length = old_rec.receipt.length as usize;
            let bytes = vstd::slice::slice_subrange(old_rec.bytes.as_slice(), 0, length);
            assert(bytes@ == snapshot5(old_rec));
            let plan = PayloadPlan { runs: new.extents, used: new.extents_used as usize };
            proof {
                assert(record_carried7(new, old_rec));
                assert(new.length as int == length as int);
                assert(plan == record_plan(new));
                lemma_sectors_cover(length as int);
            }
            let ghost c1 = target.contents();
            proof {
                if crate::volume7::mount::layout_present7(t0) {
                    lemma_plan_inside(t0, plan);
                    assert forall|k: int, q: int| 0 <= k < plan.runs@.take(plan.used as int).len() && 0 <= q < plan.runs@.take(plan.used as int)[k].sectors
                        implies target.contents().dom().contains(#[trigger] crate::volume6::run_sector_at(PAYLOAD_SECTOR, plan.runs@.take(plan.used as int)[k], q)) by {
                        assert(t0.dom().contains(crate::volume6::run_sector_at(PAYLOAD_SECTOR, plan.runs@.take(plan.used as int)[k], q)));
                    }
                }
            }
            write_runs(target, PAYLOAD_SECTOR, &plan, bytes)?;
            proof {
                let c2 = target.contents();
                let runs = new.extents@.take(new.extents_used as int);
                let me = NODES + index;
                assert(owner7(n7, recs, me) == runs);
                assert(runs == plan.runs@.take(plan.used as int));
                assert forall|p: int| 0 <= p < length implies #[trigger] content7(c2, runs, length as int)[p] == bytes@[p] by {
                    assert(payload_byte(c2, PAYLOAD_SECTOR, runs, p) == padded_at(bytes@, p));
                }
                assert(content7(c2, runs, new.length as int) =~= bytes@);
                assert forall|s: u64| s < PAYLOAD_SECTOR implies #[trigger] c2[s] == t0[s] by {
                    assert(!covered(plan.runs@, plan.used as int, s - PAYLOAD_SECTOR));
                }
                assert forall|i: int| 0 <= i < OBJECTS implies #[trigger] node_content_ok(c2, src, nodes@, n7, i) by {
                    if nodes@[i].kind == Kind::File {
                        assert(node_content_ok(c1, src, nodes@, n7, i));
                        let f = n7[i];
                        let fr = f.extents@.take(f.extents_used as int);
                        assert(file_carried7(src, i, nodes@[i], f));
                        assert(carried7(f, nodes@[i]));
                        assert(owner7(n7, recs, i) == fr);
                        assert forall|x: u64| holds7(fr, x - PAYLOAD_SECTOR) implies #[trigger] c2[x] == c1[x] by {
                            lemma_owners_apart(n7, recs, i, me, x - PAYLOAD_SECTOR);
                            if covered(plan.runs@, plan.used as int, x - PAYLOAD_SECTOR) {
                                let k = choose|k: int| 0 <= k < plan.used && #[trigger] plan.runs@[k].start <= x - PAYLOAD_SECTOR < plan.runs@[k].start + plan.runs@[k].sectors;
                                assert(runs[k] == plan.runs@[k]);
                            }
                        }
                        assert forall|k: int| 0 <= k < fr.len() implies #[trigger] fr[k].start + fr[k].sectors <= DATA_SECTORS by {
                            assert(fr[k] == plan_of(f).runs@[k]);
                        }
                        lemma_sectors_cover(f.length as int);
                        lemma_content_kept(c1, c2, fr, f.length as int);
                    }
                }
                assert forall|k: int| 0 <= k < index + 1 implies #[trigger] record_content_ok(c2, recs[k], slot5(*recovery, k)) by {
                    if k == index {
                        assert(recs[k] == Some(new));
                        assert(slot5(*recovery, k) == Some(old_rec));
                    }
                    if k < index && slot5(*recovery, k) is Some {
                        assert(record_content_ok(c1, recs[k], slot5(*recovery, k)));
                        let r5 = slot5(*recovery, k)->Some_0;
                        assert(record_slot_carried7(src, nodes@, n7, recs[k], slot5(*recovery, k)));
                        let r7 = recs[k]->Some_0;
                        let rr = r7.extents@.take(r7.extents_used as int);
                        let other = if aliases7(r7, n7) { find7(n7, r7.object, 0)->Some_0 } else { NODES + k };
                        if aliases7(r7, n7) {
                            lemma_find_carried(n7, nodes@, r7.object, 0);
                            crate::format::lemma_find_id(nodes@, r7.object, 0);
                            assert(owner7(n7, recs, other) == n7[other].extents@.take(n7[other].extents_used as int));
                        }
                        assert(owner7(n7, recs, other) == rr);
                        assert(other != me);
                        assert forall|x: u64| holds7(rr, x - PAYLOAD_SECTOR) implies #[trigger] c2[x] == c1[x] by {
                            if other < me {
                                lemma_owners_apart(n7, recs, other, me, x - PAYLOAD_SECTOR);
                            } else {
                                lemma_owners_apart(n7, recs, me, other, x - PAYLOAD_SECTOR);
                            }
                            if covered(plan.runs@, plan.used as int, x - PAYLOAD_SECTOR) {
                                let q = choose|q: int| 0 <= q < plan.used && #[trigger] plan.runs@[q].start <= x - PAYLOAD_SECTOR < plan.runs@[q].start + plan.runs@[q].sectors;
                                assert(runs[q] == plan.runs@[q]);
                            }
                        }
                        assert forall|q: int| 0 <= q < rr.len() implies #[trigger] rr[q].start + rr[q].sectors <= DATA_SECTORS by {
                            assert(rr[q] == record_plan(r7).runs@[q]);
                        }
                        lemma_sectors_cover(r7.length as int);
                        lemma_content_kept(c1, c2, rr, r7.length as int);
                    }
                }
            }
            index = index + 1;
        }
        proof {
            assert forall|k: int| 0 <= k < RETAINED implies #[trigger] record_content_ok(target.contents(), recs[k], slot5(*recovery, k)) by {
                if k >= crate::recovery::RETAINED {
                    assert(slot5(*recovery, k) is None);
                }
            }
        }
        Ok(())
    }
}


/// `v` with header `h`.
pub open spec fn with_header7(v: Volume7, h: Header7) -> Volume7 {
    Volume7 { header: h, ..v }
}

/// Header `h` with records `nodes`, retained records `records` and map
/// `map`, published on medium `c`, is the migration of generation `m`, read
/// from bank `bank` of the two-bank medium `src`, into lineage `lineage`: the
/// lineage agrees with the source's envelope and recovery block; the header
/// keeps the source's sequence, watermark and epoch; every record is carried
/// into its slot with its bytes readable from its runs; and `c` holds the
/// valid generation 0 with header copy 0 naming it and copy 1 zero.
pub open spec fn migrated_from7(src: Map<u64, Seq<u8>>, bank: u8, m: Metadata, c: Map<u64, Seq<u8>>, h: Header7,
    nodes: Seq<Node7>, records: Seq<Option<Record7>>, map: Seq<u64>, lineage: [u8; 16]) -> bool {
    &&& bank <= 1
    &&& generation_present(src, bank)
    &&& generation_at(src, bank) == Ok::<Metadata, Error>(m)
    &&& src.dom().contains(ENVELOPE_SECTOR)
    &&& envelope_lineage(src[ENVELOPE_SECTOR]) matches Ok(e) && (e matches Some(l) ==> l == lineage@)
    &&& m.recovery matches Some(rec) ==> rec.lineage == lineage
    &&& h.lineage == lineage
    &&& h.generation == 0
    &&& h.epoch == epoch_of(m)
    &&& h.sequence == m.sequence
    &&& h.next == m.next
    &&& forall|i: int| 0 <= i < OBJECTS ==> #[trigger] carried7(nodes[i], m.nodes@[i])
    &&& forall|i: int| OBJECTS <= i < NODES ==> #[trigger] nodes[i] == empty_node7()
    &&& forall|i: int| 0 <= i < OBJECTS ==> #[trigger] node_content_ok(c, src, m.nodes@, nodes, i)
    &&& forall|k: int| 0 <= k < RETAINED ==> #[trigger] record_slot_carried7(src, m.nodes@, nodes, records[k], slot5(m.recovery, k))
    &&& forall|k: int| 0 <= k < RETAINED ==> #[trigger] record_content_ok(c, records[k], slot5(m.recovery, k))
    &&& spec_decode_header7(c[HEADER_SECTOR]) == Ok::<Header7, Error>(h)
    &&& c[(HEADER_SECTOR + 1) as u64].len() == 512
    &&& zero_range(c[(HEADER_SECTOR + 1) as u64], 0, 512)
    &&& generation_read7(c, h, nodes, map, records)
    &&& generation_valid7(h, nodes, records, map)
    &&& payloads_sound7(c, nodes, records)
}


/// Whether a generation is valid does not depend on the header's region
/// checksums.
proof fn lemma_valid_any_sums(h: Header7, sums: (u32, u32, u32), nodes: Seq<Node7>, receipts: Seq<Option<Record7>>, map: Seq<u64>)
    requires
        generation_valid7(h, nodes, receipts, map),
        h.generation == 0,
    ensures
        generation_valid7(with_sums7(h, 0, sums), nodes, receipts, map),
{
    let h2 = with_sums7(h, 0, sums);
    assert forall|i: int| 0 <= i < NODES implies #[trigger] node_rules7(h2, nodes, i) by {
        assert(node_rules7(h, nodes, i));
    }
    assert forall|i: int| 0 <= i < RETAINED implies #[trigger] receipt_rules7(h2, nodes, receipts, i) by {
        assert(receipt_rules7(h, nodes, receipts, i));
    }
}

impl Volume7 {
    /// Every record and retained record encodes: each is valid on its own.
    fn check_encodable(&self) -> (r: Result<(), Error>)
        ensures
            r is Ok <==> (forall|i: int| 0 <= i < NODES ==> node7_valid(#[trigger] self.nodes@[i]))
                && (forall|k: int| 0 <= k < RETAINED ==> (#[trigger] self.records@[k] matches Some(r) ==> record7_local_ok(r))),
            r is Err ==> r == Err::<(), Error>(Error::Corrupt),
    {
        let mut i: usize = 0;
        while i < NODES
            invariant
                0 <= i <= NODES,
                forall|j: int| 0 <= j < i ==> node7_valid(#[trigger] self.nodes@[j]),
            decreases NODES - i,
        {
            self.nodes[i].encode()?;
            i = i + 1;
        }
        let mut k: usize = 0;
        while k < RETAINED
            invariant
                0 <= k <= RETAINED,
                forall|i: int| 0 <= i < NODES ==> node7_valid(#[trigger] self.nodes@[i]),
                forall|j: int| 0 <= j < k ==> (#[trigger] self.records@[j] matches Some(r) ==> record7_local_ok(r)),
            decreases RETAINED - k,
        {
            match &self.records[k] {
                Some(record) => {
                    record.encode()?;
                },
                None => {},
            }
            k = k + 1;
        }
        Ok(())
    }
}

/// What the preparation of a migration establishes: generation `m` of bank
/// `bank` of `src`, within the lineage checks, carried into `v` over cleared
/// storage, validated and encodable, with the target's header copies zero.
pub open spec fn prepared7(src: Map<u64, Seq<u8>>, t: Map<u64, Seq<u8>>, bank: u8, m: Metadata, v: Volume7, lineage: [u8; 16]) -> bool {
    &&& bank <= 1
    &&& generation_present(src, bank)
    &&& generation_at(src, bank) == Ok::<Metadata, Error>(m)
    &&& m.inv()
    &&& src.dom().contains(ENVELOPE_SECTOR)
    &&& envelope_lineage(src[ENVELOPE_SECTOR]) matches Ok(e) && (e matches Some(l) ==> l == lineage@)
    &&& m.recovery matches Some(rec) ==> rec.lineage == lineage
    &&& t.dom().contains(HEADER_SECTOR) && t.dom().contains((HEADER_SECTOR + 1) as u64)
    &&& t[(HEADER_SECTOR + 1) as u64].len() == 512 && zero_range(t[(HEADER_SECTOR + 1) as u64], 0, 512)
    &&& v.wf()
    &&& v.header.lineage == lineage
    &&& v.header.generation == 0
    &&& v.header.epoch == epoch_of(m)
    &&& v.header.sequence == m.sequence
    &&& v.header.next == m.next
    &&& forall|i: int| 0 <= i < OBJECTS ==> #[trigger] carried7(v.nodes@[i], m.nodes@[i])
    &&& forall|i: int| 0 <= i < OBJECTS && m.nodes@[i].kind == Kind::File ==> #[trigger] file_carried7(src, i, m.nodes@[i], v.nodes@[i])
    &&& forall|i: int| OBJECTS <= i < NODES ==> #[trigger] v.nodes@[i] == empty_node7()
    &&& forall|k: int| 0 <= k < RETAINED ==> #[trigger] record_slot_carried7(src, m.nodes@, v.nodes@, v.records@[k], slot5(m.recovery, k))
    &&& generation_valid7(v.header, v.nodes@, v.records@, v.map@)
    &&& forall|i: int| 0 <= i < NODES ==> node7_valid(#[trigger] v.nodes@[i])
    &&& forall|k: int| 0 <= k < RETAINED ==> (#[trigger] v.records@[k] matches Some(r) ==> record7_local_ok(r))
}

impl Volume7 {
    /// Everything before the target's payload region is touched: the lineage
    /// and source checks, the blank-target check, the conversion into this
    /// cleared storage and its validation. Returns the source generation.
    fn prepare_migration<S: Disk, D: Disk>(&mut self, source: &mut S, target: &mut D, lineage: [u8; 16]) -> (r: Result<(Metadata, Ghost<u8>), Error>)
        requires
            cleared7(*old(self)),
        ensures
            final(self).wf(),
            final(self).fenced == old(self).fenced,
            final(self).recovered_from_header == old(self).recovered_from_header,
            final(source).contents() == old(source).contents(),
            final(target).contents() == old(target).contents(),
            lineage@ == Seq::new(16, |i: int| 0u8) ==> r == Err::<(Metadata, Ghost<u8>), Error>(Error::Invalid) && *final(self) == *old(self),
            migration_readable7(old(source).dependable(), old(source).contents(), old(target).dependable(), old(target).contents())
                ==> (migration_refusal7(old(source).contents(), old(target).contents(), lineage@) matches Some(e)
                ==> r == Err::<(Metadata, Ghost<u8>), Error>(e)),
            r matches Ok(p) ==> prepared7(old(source).contents(), old(target).contents(), p.1@, p.0, *final(self), lineage),
    {
        if all_zero(&lineage) {
            proof {
                assert(lineage@ =~= Seq::new(16, |i: int| 0u8));
            }
            return Err(Error::Invalid);
        }
        let ghost src = source.contents();
        let ghost readable = migration_readable7(source.dependable(), src, target.dependable(), target.contents());
        proof {
            if readable {
                lemma_generations_present(src, 0);
                lemma_generations_present(src, 1);
                assert(src.dom().contains(ENVELOPE_SECTOR));
            }
        }
        let a = Metadata::read(source, 0);
        let b = Metadata::read(source, 1);
        let metadata = select_source(a, b)?;
        let ghost bank: u8 = if a == Ok::<Metadata, Error>(metadata) { 0 } else { 1 };
        proof {
            assert(a == Ok::<Metadata, Error>(metadata) || b == Ok::<Metadata, Error>(metadata));
        }
        let envelope = crate::provision::lineage(source)?;
        match envelope {
            Some(found) => {
                if !slices_equal(found.as_slice(), lineage.as_slice()) {
                    return Err(Error::Lineage);
                }
            },
            None => {},
        }
        match &metadata.recovery {
            Some(rec) => {
                let same = slices_equal(rec.lineage.as_slice(), lineage.as_slice());
                proof {
                    if same {
                        crate::codec::lemma_array_view_eq(rec.lineage, lineage);
                    }
                }
                if !same {
                    return Err(Error::Lineage);
                }
            },
            None => {},
        }
        require_blank_target(target)?;
        let epoch = match &metadata.recovery {
            Some(rec) => rec.epoch,
            None => 1,
        };
        self.header = Header7 {
            lineage,
            epoch,
            sequence: metadata.sequence,
            next: metadata.next,
            generation: 0,
            nodes_checksum: 0,
            map_checksum: 0,
            receipts_checksum: 0,
        };
        self.convert_live_nodes(source, &metadata.nodes)?;
        self.convert_records(source, &metadata.nodes, &metadata.recovery)?;
        let mut scratch: Vec<u64> = Vec::new();
        core::mem::swap(&mut scratch, &mut self.validation);
        let checked = validate_generation(&self.header, &self.nodes, &self.records, self.map.as_slice(), &mut scratch);
        self.validation = scratch;
        checked?;
        self.header.encode()?;
        self.check_encodable()?;
        Ok((metadata, Ghost(bank)))
    }

    /// Copy the payloads, write generation 0 and publish header copy 0,
    /// flushing after each step; the published header is adopted.
    #[verifier::rlimit(40)]
    fn publish_migration<S: Disk, D: Disk>(&mut self, source: &mut S, target: &mut D, metadata: &Metadata, Ghost(bank): Ghost<u8>, lineage: [u8; 16])
        -> (r: Result<(), Error>)
        requires
            prepared7(old(source).contents(), old(target).contents(), bank, *metadata, *old(self), lineage),
        ensures
            final(self).wf(),
            final(self).nodes == old(self).nodes,
            final(self).records == old(self).records,
            final(self).map == old(self).map,
            final(self).fenced == old(self).fenced,
            final(self).recovered_from_header == old(self).recovered_from_header,
            final(source).contents() == old(source).contents(),
            r is Ok ==> migrated_from7(old(source).contents(), bank, *metadata, final(target).contents(), final(self).header, final(self).nodes@, final(self).records@, final(self).map@, lineage),
            final(source).dependable() == old(source).dependable(),
            final(target).dependable() == old(target).dependable(),
            old(source).dependable() && old(target).dependable() && source_present5(old(source).contents())
                && crate::volume7::mount::layout_present7(old(target).contents()) ==> r is Ok,
    {
        let ghost src = source.contents();
        let ghost t0 = target.contents();
        self.stage_payloads(source, target, &metadata.nodes, &metadata.recovery)?;
        let ghost cs = target.contents();
        target.flush()?;
        proof {
            if crate::volume7::mount::layout_present7(t0) {
                assert forall|j: int| 0 <= j < 100 implies target.contents().dom().contains(#[trigger] ((crate::volume7::mount::nodes_base7(0) + j) as u64)) by {
                    assert(((crate::volume7::mount::nodes_base7(0) + j) as u64) < PAYLOAD_SECTOR + DATA_SECTORS);
                    assert(t0.dom().contains(((crate::volume7::mount::nodes_base7(0) + j) as u64)));
                }
            }
        }
        let sums = self.write_generation(target, 0)?;
        let ghost cg = target.contents();
        target.flush()?;
        let published = Header7 { nodes_checksum: sums.0, map_checksum: sums.1, receipts_checksum: sums.2, ..self.header };
        assert(published == with_sums7(self.header, 0, sums));
        let bytes = published.encode()?;
        target.write(header_sector(0), &bytes)?;
        target.flush()?;
        proof {
            let c = target.contents();
            let n5 = metadata.nodes@;
            lemma_header7_roundtrip(bytes@, published);
            assert(c[HEADER_SECTOR] == bytes@);
            assert forall|x: u64| x >= PAYLOAD_SECTOR implies #[trigger] c[x] == cs[x] by {
                assert(!(nodes_base7(0) <= x < nodes_base7(0) + 100));
            }
            assert(c[(HEADER_SECTOR + 1) as u64] == t0[(HEADER_SECTOR + 1) as u64]);
            let base = nodes_base7(0);
            lemma_sectors_from_frame(c, cg, base, 64);
            lemma_sectors_from_frame(c, cg, (base + 64) as u64, 32);
            lemma_sectors_from_frame(c, cg, (base + 96) as u64, 4);
            assert forall|j: int| 0 <= j < NODES implies #[trigger] node_read7(c, 0, j, self.nodes@[j]) by {
                assert(node_read7(cg, 0, j, self.nodes@[j]));
            }
            assert forall|j: int| 0 <= j < crate::extent::MAP_WORDS implies #[trigger] word_read7(c, 0, j, self.map@[j]) by {
                assert(word_read7(cg, 0, j, self.map@[j]));
            }
            assert(generation_read7(c, published, self.nodes@, self.map@, self.records@));
            assert forall|j: int| 0 <= j < OBJECTS implies #[trigger] node_content_ok(c, src, n5, self.nodes@, j) by {
                assert(node_content_ok(cs, src, n5, self.nodes@, j));
                if n5[j].kind == Kind::File {
                    let f = self.nodes@[j];
                    let fr = f.extents@.take(f.extents_used as int);
                    assert(file_carried7(src, j, n5[j], f));
                    assert forall|q: int| 0 <= q < fr.len() implies #[trigger] fr[q].start + fr[q].sectors <= DATA_SECTORS by {
                        assert(fr[q] == plan_of(f).runs@[q]);
                    }
                    assert forall|x: u64| holds7(fr, x - PAYLOAD_SECTOR) implies #[trigger] c[x] == cs[x] by {
                        assert(x >= PAYLOAD_SECTOR);
                    }
                    lemma_sectors_cover(f.length as int);
                    lemma_content_kept(cs, c, fr, f.length as int);
                }
            }
            assert forall|q: int| 0 <= q < RETAINED implies #[trigger] record_content_ok(c, self.records@[q], slot5(metadata.recovery, q)) by {
                assert(record_content_ok(cs, self.records@[q], slot5(metadata.recovery, q)));
                assert(record_slot_carried7(src, n5, self.nodes@, self.records@[q], slot5(metadata.recovery, q)));
                if slot5(metadata.recovery, q) is Some {
                    let r7 = self.records@[q]->Some_0;
                    let rr = r7.extents@.take(r7.extents_used as int);
                    assert forall|z: int| 0 <= z < rr.len() implies #[trigger] rr[z].start + rr[z].sectors <= DATA_SECTORS by {
                        assert(rr[z] == record_plan(r7).runs@[z]);
                    }
                    assert forall|x: u64| holds7(rr, x - PAYLOAD_SECTOR) implies #[trigger] c[x] == cs[x] by {
                        assert(x >= PAYLOAD_SECTOR);
                    }
                    lemma_sectors_cover(r7.length as int);
                    lemma_content_kept(cs, c, rr, r7.length as int);
                }
            }
            assert forall|j: int| 0 <= j < NODES && (#[trigger] self.nodes@[j]).kind == Kind::File implies payload_sound7(c, self.nodes@[j].extents, self.nodes@[j].extents_used, self.nodes@[j].length, self.nodes@[j].payload_crc32) by {
                if j >= OBJECTS {
                    assert(self.nodes@[j] == empty_node7());
                } else {
                    assert(carried7(self.nodes@[j], n5[j]));
                    assert(file_carried7(src, j, n5[j], self.nodes@[j]));
                    assert(node_content_ok(c, src, n5, self.nodes@, j));
                }
            }
            assert forall|q: int| 0 <= q < RETAINED implies (#[trigger] self.records@[q] matches Some(r) ==> payload_sound7(c, r.extents, r.extents_used, r.length, r.payload_crc32)) by {
                assert(record_slot_carried7(src, n5, self.nodes@, self.records@[q], slot5(metadata.recovery, q)));
                assert(record_content_ok(c, self.records@[q], slot5(metadata.recovery, q)));
            }
            assert(payloads_sound7(c, self.nodes@, self.records@));
            lemma_valid_any_sums(self.header, sums, self.nodes@, self.records@, self.map@);
        }
        self.header = published;
        Ok(())
    }

    /// The migration proper, over cleared storage; lifting the fence is left
    /// to the caller.
    fn upgrade_inner<S: Disk, D: Disk>(&mut self, source: &mut S, target: &mut D, lineage: [u8; 16]) -> (r: Result<(), Error>)
        requires
            cleared7(*old(self)),
        ensures
            final(self).wf(),
            final(self).fenced == old(self).fenced,
            final(self).recovered_from_header == old(self).recovered_from_header,
            final(source).contents() == old(source).contents(),
            lineage@ == Seq::new(16, |i: int| 0u8) ==> r == Err::<(), Error>(Error::Invalid)
                && final(target).contents() == old(target).contents() && *final(self) == *old(self),
            migration_readable7(old(source).dependable(), old(source).contents(), old(target).dependable(), old(target).contents())
                ==> (migration_refusal7(old(source).contents(), old(target).contents(), lineage@) matches Some(e)
                ==> r == Err::<(), Error>(e) && final(target).contents() == old(target).contents()),
            r is Ok ==> exists|bank: u8, m: Metadata| #[trigger] migrated_from7(old(source).contents(), bank, m, final(target).contents(), final(self).header, final(self).nodes@, final(self).records@, final(self).map@, lineage),
    {
        let (metadata, bank) = self.prepare_migration(source, target, lineage)?;
        self.publish_migration(source, target, &metadata, bank, lineage)?;
        Ok(())
    }
}

/// Copy the two-bank volume on `source` onto the distinct, disposable medium
/// `target` and publish it there as generation 0 of this layout, leaving
/// `volume` mounted on the result.
///
/// `source` is only read; its banks are selected with the two-bank codec, as
/// a mount could publish a provisioning envelope into it. Both target header
/// copies must be zero (`Exists` otherwise). A zero lineage is `Invalid`; a
/// lineage other than the source envelope's or recovery block's is `Lineage`;
/// a record the layout cannot carry is `Unsupported` or `Corrupt`. After a
/// device error the target may be left partly written, and the caller owns
/// backups. `volume` is cleared and stays fenced unless header copy 0 was
/// flushed.
pub fn upgrade_v5_to_v7<S: Disk, D: Disk>(source: &mut S, target: &mut D, volume: &mut Volume7, expected_lineage: [u8; 16]) -> (r: Result<(), Error>)
    requires
        old(volume).wf(),
    ensures
        final(volume).wf(),
        final(source).contents() == old(source).contents(),
        expected_lineage@ == Seq::new(16, |i: int| 0u8) ==> r == Err::<(), Error>(Error::Invalid)
            && final(target).contents() == old(target).contents(),
        migration_readable7(old(source).dependable(), old(source).contents(), old(target).dependable(), old(target).contents())
            ==> (migration_refusal7(old(source).contents(), old(target).contents(), expected_lineage@) matches Some(e)
            ==> r == Err::<(), Error>(e) && final(target).contents() == old(target).contents()),
        r is Err ==> cleared7(*final(volume)),
        r is Ok ==> {
            &&& !final(volume).fenced
            &&& !final(volume).recovered_from_header
            &&& exists|bank: u8, m: Metadata| #[trigger] migrated_from7(old(source).contents(), bank, m, final(target).contents(),
                final(volume).header, final(volume).nodes@, final(volume).records@, final(volume).map@, expected_lineage)
        },
{
    volume.fenced = true;
    volume.clear();
    match volume.upgrade_inner(source, target, expected_lineage) {
        Ok(()) => {
            let ghost before = *volume;
            volume.fenced = false;
            assert(volume.header == before.header && volume.nodes@ == before.nodes@ && volume.records@ == before.records@
                && volume.map@ == before.map@);
            Ok(())
        },
        Err(error) => {
            volume.clear();
            Err(error)
        },
    }
}

/// A migrated medium mounts what the migration published: the two header
/// copies select the published header (reporting the zero second copy as
/// ignored unless the header is a fresh volume's), and the generation it
/// names reads back, is valid and checksums as claimed.
pub proof fn lemma_migration_mounts(src: Map<u64, Seq<u8>>, bank: u8, m: Metadata, c: Map<u64, Seq<u8>>, h: Header7,
    nodes: Seq<Node7>, records: Seq<Option<Record7>>, map: Seq<u64>, lineage: [u8; 16])
    requires
        migrated_from7(src, bank, m, c, h, nodes, records, map, lineage),
    ensures
        select7(c[HEADER_SECTOR], c[(HEADER_SECTOR + 1) as u64]) == Ok::<(Header7, bool), Error>((h, !clean_genesis7(h, c[(HEADER_SECTOR + 1) as u64]))),
        generation_read7(c, h, nodes, map, records),
        generation_valid7(h, nodes, records, map),
        payloads_sound7(c, nodes, records),
{
    let other = c[(HEADER_SECTOR + 1) as u64];
    assert(other.subrange(0, 8) != crate::format7::MAGIC@) by {
        let magic = crate::format7::MAGIC;
        assert(magic@[0] == 82u8);
        assert(other.subrange(0, 8)[0] == 0u8);
    }
    assert(spec_decode_header7(other) is Err);
    assert(candidate7(other, 1) is None);
    assert(candidate7(c[HEADER_SECTOR], 0) == Some(h));
}

} // verus!
