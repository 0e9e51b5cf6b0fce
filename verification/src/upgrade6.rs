//! Deliberate in-place upgrade of a two-bank volume to the extent-addressed
//! layout. Every record is read first and each file's bytes are copied into
//! the free payload region above the old layout; only then are the new
//! structures published with one flush. A retained recovery record carries
//! evidence the new receipt table has no place for, and another lineage is
//! another volume's identity: both are refused instead of dropped.
use vstd::prelude::*;
use crate::extent::{DATA_SECTORS, MAP_WORDS, bit};
use crate::format::{generation_at, Metadata, sectors_from, spec_data_sector, data_sector, read_sectors, header_sector};
use crate::format6::{Node6, node6_storable, empty_node6, PAYLOAD_SECTOR};
use crate::namespace::{Kind, Node};
use crate::storage::Disk;
use crate::volume::Volume;
use crate::volume6::{Volume6, blank, blank6, fresh_root6, holds_file, runs_of, covered, file_byte, lemma_file_byte, lemma_locate};
use crate::{Error, OBJECTS, MAX_FILE};
use crate::codec::{put, slices_equal};
use crate::extent::OBJECTS_V6;
use crate::volume7::publication::lemma_sectors_from_frame;

verus! {

/// What the upgrade moved, so the caller can seed identity allocation and
/// record evidence without re-reading the old layout.
#[derive(Clone, Copy, Debug, PartialEq, Eq, Structural)]
pub struct Report {
    /// Sequence of the publication the upgrade read.
    pub source_sequence: u64,
    /// The identity allocator, which the new layout does not carry.
    pub next: u32,
    /// Live records migrated, by kind, and the file bytes they carry.
    pub files: u32,
    pub directories: u32,
    pub bytes: u64,
}

/// The upgraded volume and the account of what it inherited.
pub struct UpgradedVolume {
    pub volume: Volume6,
    pub report: Report,
}

/// The first slot holding identity `id`, whatever its kind.
pub open spec fn find_any(nodes: Seq<Node>, id: u32, from: int) -> Option<int>
    decreases nodes.len() - from,
{
    if from < 0 || from >= nodes.len() {
        None
    } else if nodes[from].id == id {
        Some(from)
    } else {
        find_any(nodes, id, from + 1)
    }
}

/// A live record a migration can copy as it is: a nonzero identity used once,
/// a name, a length a file may have, and a parent that is a directory.
pub open spec fn migratable(nodes: Seq<Node>, slot: int) -> bool {
    let n = nodes[slot];
    n.kind == Kind::Empty || {
        &&& n.id != 0
        &&& n.name_length != 0
        &&& n.length <= MAX_FILE
        &&& forall|j: int| 0 <= j < slot ==> (#[trigger] nodes[j]).id != n.id
        &&& n.parent != 0 ==> match find_any(nodes, n.parent, 0) {
            None => false,
            Some(p) => nodes[p].kind == Kind::Directory,
        }
    }
}

/// What an upgrade of generation `m` refuses before it writes anything.
pub open spec fn upgrade_refusal(m: Metadata, lineage: [u8; 16]) -> Option<Error> {
    if m.recovery is Some && m.recovery->Some_0.lineage != lineage {
        Some(Error::Lineage)
    } else if m.recovery is Some && (m.recovery->Some_0.records@[0] is Some || m.recovery->Some_0.records@[1] is Some) {
        Some(Error::Unsupported)
    } else if !(forall|i: int| 0 <= i < OBJECTS ==> #[trigger] migratable(m.nodes@, i)) {
        Some(Error::Corrupt)
    } else if lineage@ == Seq::new(16, |i: int| 0u8) {
        Some(Error::Invalid)
    } else {
        None
    }
}

/// `n6` carries `n5`'s identity, place, version, kind, space and name.
pub open spec fn mirrors(n6: Node6, n5: Node) -> bool {
    &&& n6.id == n5.id
    &&& n6.parent == n5.parent
    &&& n6.version == n5.version
    &&& n6.kind == n5.kind
    &&& n6.space == n5.space
    &&& n6.name_length == n5.name_length
    &&& n6.name@ == n5.spec_name() + Seq::new((32 - n5.name_length) as nat, |i: int| 0u8)
}

/// The bytes record `n5` in slot `slot` holds on a two-bank medium.
pub open spec fn source_bytes(c: Map<u64, Seq<u8>>, slot: int, n5: Node) -> Seq<u8> {
    sectors_from(c, spec_data_sector(slot, n5.bank), 2).take(n5.length as int)
}

/// Live records of `kind` among the first `k` slots.
pub open spec fn count_kind(nodes: Seq<Node>, kind: Kind, k: int) -> nat
    decreases k,
{
    if k <= 0 {
        0
    } else {
        count_kind(nodes, kind, k - 1) + if nodes[k - 1].kind == kind { 1nat } else { 0nat }
    }
}

/// File bytes among the first `k` slots.
pub open spec fn file_bytes(nodes: Seq<Node>, k: int) -> nat
    decreases k,
{
    if k <= 0 {
        0
    } else {
        file_bytes(nodes, k - 1) + if nodes[k - 1].kind == Kind::File { nodes[k - 1].length as nat } else { 0nat }
    }
}

/// The account of migrating generation `m`.
pub open spec fn report_of(m: Metadata) -> Report {
    Report {
        source_sequence: m.sequence,
        next: m.next,
        files: count_kind(m.nodes@, Kind::File, OBJECTS as int) as u32,
        directories: count_kind(m.nodes@, Kind::Directory, OBJECTS as int) as u32,
        bytes: file_bytes(m.nodes@, OBJECTS as int) as u64,
    }
}

/// A file whose run sectors are all unchanged keeps its bytes.
proof fn lemma_file_kept(c1: Map<u64, Seq<u8>>, c2: Map<u64, Seq<u8>>, n: Node6, bytes: Seq<u8>)
    requires
        holds_file(c1, n, bytes),
        node6_storable(n),
        forall|s: u64| covered(n.extents@, n.extents_used as int, s - PAYLOAD_SECTOR) ==> #[trigger] c2[s] == c1[s],
    ensures
        holds_file(c2, n, bytes),
{
    let runs = runs_of(n);
    assert forall|p: int| 0 <= p < bytes.len() implies #[trigger] file_byte(c2, runs, p) == bytes[p] by {
        assert(runs.take(n.extents_used as int) =~= runs);
        let (k, q) = lemma_locate(runs, n.extents_used as int, p);
        lemma_file_byte(c1, runs, k, q);
        lemma_file_byte(c2, runs, k, q);
        let s = (PAYLOAD_SECTOR + runs[k].start + q / 512) as u64;
        assert(runs[k] == n.extents@[k]);
        assert(n.extents@[k].start + n.extents@[k].sectors <= DATA_SECTORS);
        assert(covered(n.extents@, n.extents_used as int, s - PAYLOAD_SECTOR));
        assert(file_byte(c1, runs, p) == bytes[p]);
    }
}

} // verus!

verus! {

fn find_any_slot(nodes: &[Node; OBJECTS], id: u32) -> (r: Option<usize>)
    ensures
        r == (match find_any(nodes@, id, 0) {
            Some(i) => Some(i as usize),
            None => None::<usize>,
        }),
        r matches Some(i) ==> i < OBJECTS && find_any(nodes@, id, 0) == Some(i as int),
{
    let mut i: usize = 0;
    while i < OBJECTS
        invariant
            0 <= i <= OBJECTS,
            find_any(nodes@, id, 0) == find_any(nodes@, id, i as int),
        decreases OBJECTS - i,
    {
        if nodes[i].id == id {
            return Some(i);
        }
        i = i + 1;
    }
    None
}

/// A namespace a migration can copy as it is; every refusal is `Corrupt`.
fn validate_source(nodes: &[Node; OBJECTS]) -> (r: Result<(), Error>)
    ensures
        r is Ok <==> forall|i: int| 0 <= i < OBJECTS ==> #[trigger] migratable(nodes@, i),
        r is Err ==> r == Err::<(), Error>(Error::Corrupt),
{
    let mut slot: usize = 0;
    while slot < OBJECTS
        invariant
            0 <= slot <= OBJECTS,
            forall|i: int| 0 <= i < slot ==> #[trigger] migratable(nodes@, i),
        decreases OBJECTS - slot,
    {
        let node = nodes[slot];
        assert(node == nodes@[slot as int]);
        if node.kind != Kind::Empty {
            if node.id == 0 || node.name_length == 0 || node.length as usize > MAX_FILE {
                assert(!migratable(nodes@, slot as int));
                return Err(Error::Corrupt);
            }
            let mut j: usize = 0;
            while j < slot
                invariant
                    0 <= j <= slot < OBJECTS,
                    node == nodes@[slot as int],
                    node.kind != Kind::Empty,
                    forall|k: int| 0 <= k < j ==> (#[trigger] nodes@[k]).id != node.id,
                decreases slot - j,
            {
                if nodes[j].id == node.id {
                    assert(nodes@[j as int].id == node.id);
                    assert(!migratable(nodes@, slot as int));
                    return Err(Error::Corrupt);
                }
                j = j + 1;
            }
            if node.parent != 0 {
                match find_any_slot(nodes, node.parent) {
                    None => {
                        assert(!migratable(nodes@, slot as int));
                        return Err(Error::Corrupt);
                    },
                    Some(p) => {
                        if nodes[p].kind != Kind::Directory {
                            assert(!migratable(nodes@, slot as int));
                            return Err(Error::Corrupt);
                        }
                    },
                }
            }
        }
        assert(migratable(nodes@, slot as int));
        slot = slot + 1;
    }
    Ok(())
}

} // verus!

verus! {

/// Slot `i` of the upgraded table: where the source slot is empty, what a
/// fresh volume holds there; otherwise a mirror of the source record.
pub open spec fn migrated_slot(n6: Node6, n5: Node, i: int) -> bool {
    if n5.kind == Kind::Empty {
        (i < 4 ==> fresh_root6(n6, i)) && (i >= 4 ==> n6 == empty_node6())
    } else {
        mirrors(n6, n5)
    }
}

/// A fresh volume's entry for slot `i`.
pub open spec fn blank_slot(n6: Node6, i: int) -> bool {
    (i < 4 ==> fresh_root6(n6, i)) && (i >= 4 ==> n6 == empty_node6())
}

/// Copy generation `m` of the mounted two-bank `source`, file bytes included,
/// into a fresh extent-addressed volume of lineage `lineage` and publish it.
pub fn upgrade_mounted<D: Disk>(disk: &mut D, source: &Volume, lineage: [u8; 16]) -> (r: Result<UpgradedVolume, Error>)
    requires
        source.wf(),
    ensures
        upgrade_refusal(source.metadata(), lineage) is Some ==> r == Err::<UpgradedVolume, Error>(upgrade_refusal(source.metadata(), lineage)->Some_0)
            && final(disk).contents() == old(disk).contents(),
        r matches Ok(u) ==> {
            let m = source.metadata();
            &&& upgrade_refusal(m, lineage) is None
            &&& u.volume.wf()
            &&& !u.volume.fenced()
            &&& u.report == report_of(m)
            &&& forall|i: int| 0 <= i < OBJECTS ==> #[trigger] migrated_slot(u.volume.table()[i], m.nodes@[i], i)
            &&& forall|i: int| 0 <= i < OBJECTS && m.nodes@[i].kind == Kind::File ==> holds_file(final(disk).contents(), #[trigger] u.volume.table()[i], source_bytes(old(disk).contents(), i, m.nodes@[i]))
            &&& forall|i: int| OBJECTS <= i < OBJECTS_V6 ==> #[trigger] u.volume.table()[i] == empty_node6()
        },
{
    let m = source.current();
    match m.recovery {
        Some(recovery) => {
            let same = slices_equal(recovery.lineage.as_slice(), lineage.as_slice());
            proof {
                if same {
                    crate::codec::lemma_array_view_eq(recovery.lineage, lineage);
                }
            }
            if !same {
                return Err(Error::Lineage);
            }
            if recovery.records[0].is_some() || recovery.records[1].is_some() {
                return Err(Error::Unsupported);
            }
        },
        None => {},
    }
    validate_source(&m.nodes)?;
    let mut target = blank(lineage)?;
    let ghost c0 = disk.contents();
    let ghost r0 = target.retained();
    let mut files: u32 = 0;
    let mut directories: u32 = 0;
    let mut bytes: u64 = 0;
    let mut slot: usize = 0;
    while slot < OBJECTS
        invariant
            0 <= slot <= OBJECTS,
            *m == source.metadata(),
            m.inv(),
            upgrade_refusal(*m, lineage) is None,
            target.wf(),
            !target.fenced(),
            target.head() == crate::format6::Header6::spec_initial(),
            target.retained() == r0,
            c0 == old(disk).contents(),
            forall|s: u64| s < PAYLOAD_SECTOR ==> #[trigger] disk.contents()[s] == c0[s],
            forall|i: int| 0 <= i < slot ==> #[trigger] migrated_slot(target.table()[i], m.nodes@[i], i),
            forall|i: int| 0 <= i < slot && m.nodes@[i].kind == Kind::File ==> holds_file(disk.contents(), #[trigger] target.table()[i], source_bytes(c0, i, m.nodes@[i])),
            forall|i: int, s: int| 0 <= i < slot && m.nodes@[i].kind == Kind::File && 0 <= s < DATA_SECTORS
                && covered(target.table()[i].extents@, target.table()[i].extents_used as int, s) ==> #[trigger] bit(target.words(), s) && #[trigger] target.table()[i] == target.table()[i],
            forall|i: int| slot <= i < OBJECTS_V6 ==> #[trigger] blank_slot(target.table()[i], i),
            files == count_kind(m.nodes@, Kind::File, slot as int),
            directories == count_kind(m.nodes@, Kind::Directory, slot as int),
            bytes == file_bytes(m.nodes@, slot as int),
            files <= slot,
            directories <= slot,
            bytes <= slot * MAX_FILE,
        decreases OBJECTS - slot,
    {
        let node = m.nodes[slot];
        assert(node == m.nodes@[slot as int]);
        assert(migratable(m.nodes@, slot as int));
        if node.kind != Kind::Empty {
            let mut record = Node6::empty();
            let mut name = record.name;
            let zero = [0u8; 32];
            proof {
                assert(zero@ =~= Seq::new(32, |i: int| 0u8));
                assert(name@ == Seq::new(32, |i: int| 0u8));
            }
            put(&mut name, 0, node.name());
            record.id = node.id;
            record.parent = node.parent;
            record.version = node.version;
            record.kind = node.kind;
            record.space = node.space;
            record.name = name;
            record.name_length = node.name_length;
            proof {
                assert(record.name@ =~= node.spec_name() + Seq::new((32 - node.name_length) as nat, |i: int| 0u8));
                assert(mirrors(record, node));
                assert(node6_storable(record)) by {
                    assert(blank_slot(target.table()[OBJECTS_V6 - 1], OBJECTS_V6 - 1));
                    assert(node6_storable(target.table()[OBJECTS_V6 - 1]));
                }
            }
            let ghost before_place = target.table();
            target.place(slot, record);
            if node.kind == Kind::File {
                let mut payload = [0u8; 1024];
                let ghost c1 = disk.contents();
                read_sectors(disk, data_sector(slot, node.bank), 2, &mut payload)?;
                let length = node.length as usize;
                let part = vstd::slice::slice_subrange(payload.as_slice(), 0, length);
                let ghost words1 = target.words();
                let ghost table1 = target.table();
                proof {
                    let ds = spec_data_sector(slot as int, node.bank);
                    lemma_sectors_from_frame(c1, c0, ds, 2);
                    assert(part@ == source_bytes(c0, slot as int, node));
                }
                assert(table1[slot as int] == record);
                target.stage_bytes(disk, slot, part)?;
                proof {
                    let c2 = disk.contents();
                    let n = target.table()[slot as int];
                    assert(target.table() == table1.update(slot as int, n));
                    assert(n == Node6 { length: n.length, extents: n.extents, extents_used: n.extents_used, ..record });
                    assert(mirrors(n, node));
                    assert forall|i: int| 0 <= i < slot && m.nodes@[i].kind == Kind::File implies holds_file(c2, #[trigger] target.table()[i], source_bytes(c0, i, m.nodes@[i])) by {
                        let f = table1[i];
                        assert(target.table()[i] == f);
                        assert(node6_storable(f));
                        assert forall|x: u64| covered(f.extents@, f.extents_used as int, x - PAYLOAD_SECTOR) implies #[trigger] c2[x] == c1[x] by {
                            let k = choose|k: int| 0 <= k < f.extents_used && #[trigger] f.extents@[k].start <= x - PAYLOAD_SECTOR < f.extents@[k].start + f.extents@[k].sectors;
                            assert(f.extents@[k].start + f.extents@[k].sectors <= DATA_SECTORS);
                            let y = x - PAYLOAD_SECTOR;
                            assert(bit(words1, y)) by {
                                assert(before_place[i] == f);
                            }
                            if covered(n.extents@, n.extents_used as int, y) {
                                assert(!bit(words1, y));
                            }
                        }
                        lemma_file_kept(c1, c2, f, source_bytes(c0, i, m.nodes@[i]));
                    }
                }
                files = files + 1;
                bytes = bytes + length as u64;
            } else {
                directories = directories + 1;
            }
            proof {
                let n = target.table()[slot as int];
                assert(mirrors(n, node));
                assert forall|i: int| 0 <= i < slot + 1 implies #[trigger] migrated_slot(target.table()[i], m.nodes@[i], i) by {
                    if i < slot {
                        assert(target.table()[i] == before_place[i]);
                    }
                }
                assert forall|i: int| slot + 1 <= i < OBJECTS_V6 implies #[trigger] blank_slot(target.table()[i], i) by {
                    assert(target.table()[i] == before_place[i]);
                }
            }
        } else {
            proof {
                assert(blank_slot(target.table()[slot as int], slot as int));
                assert(migrated_slot(target.table()[slot as int], m.nodes@[slot as int], slot as int));
            }
        }
        slot = slot + 1;
    }
    let zeros = [0u8; 512];
    let ghost c3 = disk.contents();
    let ghost before_flush = target;
    disk.write(header_sector(1), &zeros)?;
    disk.flush()?;
    let ghost c4 = disk.contents();
    target.flush(disk)?;
    proof {
        let c5 = disk.contents();
        let g = crate::volume6::published6(before_flush).active;
        assert forall|i: int| 0 <= i < OBJECTS && m.nodes@[i].kind == Kind::File implies holds_file(c5, #[trigger] target.table()[i], source_bytes(c0, i, m.nodes@[i])) by {
            let f = target.table()[i];
            assert(holds_file(c3, f, source_bytes(c0, i, m.nodes@[i])));
            assert(node6_storable(f));
            assert forall|x: u64| covered(f.extents@, f.extents_used as int, x - PAYLOAD_SECTOR) implies #[trigger] c5[x] == c3[x] by {
                let k = choose|k: int| 0 <= k < f.extents_used && #[trigger] f.extents@[k].start <= x - PAYLOAD_SECTOR < f.extents@[k].start + f.extents@[k].sectors;
                assert(x >= PAYLOAD_SECTOR);
                assert(!crate::volume6::written_by(g, x));
                assert(c5[x] == c4[x]);
            }
            lemma_file_kept(c3, c5, f, source_bytes(c0, i, m.nodes@[i]));
        }
        assert forall|i: int| OBJECTS <= i < OBJECTS_V6 implies #[trigger] target.table()[i] == empty_node6() by {
            assert(blank_slot(target.table()[i], i));
        }
    }
    let report = Report { source_sequence: m.sequence, next: m.next, files, directories, bytes };
    Ok(UpgradedVolume { volume: target, report })
}


/// The source that `u` was upgraded from: a valid generation `m`, read from
/// bank `bank` of device contents `c`, whose records `u` mirrors slot by slot,
/// whose file bytes device contents `d` hold, and whose account `u.report` gives.
pub open spec fn upgraded_from(u: UpgradedVolume, m: Metadata, bank: u8, c: Map<u64, Seq<u8>>, d: Map<u64, Seq<u8>>, lineage: [u8; 16]) -> bool {
    &&& m.valid()
    &&& generation_at(c, bank) == Ok::<Metadata, Error>(m)
    &&& upgrade_refusal(m, lineage) is None
    &&& u.report == report_of(m)
    &&& forall|i: int| 0 <= i < OBJECTS ==> #[trigger] migrated_slot(u.volume.table()[i], m.nodes@[i], i)
    &&& forall|i: int| 0 <= i < OBJECTS && m.nodes@[i].kind == Kind::File ==> holds_file(d, #[trigger] u.volume.table()[i], source_bytes(c, i, m.nodes@[i]))
    &&& forall|i: int| OBJECTS <= i < OBJECTS_V6 ==> #[trigger] u.volume.table()[i] == empty_node6()
}

/// Upgrade the two-bank volume on `disk` in place. A device that already
/// mounts in the extent-addressed layout is refused with `Exists`; otherwise
/// the two-bank volume is mounted and handed to `upgrade_mounted`.
pub fn upgrade<D: Disk>(disk: &mut D, lineage: [u8; 16]) -> (r: Result<UpgradedVolume, Error>)
    ensures
        r matches Ok(u) ==> {
            &&& u.volume.wf()
            &&& !u.volume.fenced()
            &&& exists|m: Metadata, bank: u8, c: Map<u64, Seq<u8>>| #[trigger] upgraded_from(u, m, bank, c, final(disk).contents(), lineage)
        },
        old(disk).dependable() && crate::volume6::layout_present6(old(disk).contents()) && crate::volume6::decodes6(old(disk).contents())
            ==> r == Err::<UpgradedVolume, Error>(Error::Exists),
        old(disk).dependable() && crate::volume6::layout_present6(old(disk).contents()) && !crate::volume6::decodes6(old(disk).contents())
            && crate::format::generation_present(old(disk).contents(), 0) && crate::format::generation_present(old(disk).contents(), 1) ==> {
            let c = old(disk).contents();
            match crate::volume::spec_select(generation_at(c, 0), generation_at(c, 1)) {
                Err(e) => r == Err::<UpgradedVolume, Error>(e),
                Ok(p) => upgrade_refusal(p.0, lineage) is Some ==> r == Err::<UpgradedVolume, Error>(upgrade_refusal(p.0, lineage)->Some_0),
            }
        },
{
    let ghost c0 = disk.contents();
    if crate::volume6::mount(disk).is_ok() {
        return Err(Error::Exists);
    }
    let ghost c = disk.contents();
    let source = Volume::mount(disk)?;
    let u = upgrade_mounted(disk, &source, lineage)?;
    proof {
        assert(upgraded_from(u, source.metadata(), source.bank(), c, disk.contents(), lineage));
    }
    Ok(u)
}

} // verus!
