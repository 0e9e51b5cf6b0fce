use rusticfs::admission::AdmissionState;
use rusticfs::format6::Node6;
use rusticfs::namespace::Kind;
use rusticfs::recovery::Retry;
use rusticfs::storage::MemDisk;
use rusticfs::tracking::Replacement;
use rusticfs::volume::Volume;
use rusticfs::volume6::provision;
use rusticfs::{Error, SECTORS};

const LINEAGE: [u8; 16] = [4; 16];

#[test]
fn a_cancelled_admission_shows_its_cancellation() {
    let mut disk = MemDisk::new(SECTORS);
    let mut volume = Volume::initialize(&mut disk).unwrap();
    let ws = volume.create(&mut disk, 4, b"ws", Kind::Directory).unwrap();
    let file = volume.create(&mut disk, ws.id, b"f", Kind::File).unwrap();
    volume.enable_recovery(&mut disk, LINEAGE).unwrap();
    volume.enable_operations(&mut disk).unwrap();
    volume.enable_admissions(&mut disk).unwrap();
    let request = Replacement { workspace: ws.id, retry: Retry { lineage: LINEAGE, epoch: 1, key: 1 }, id: file.id, version: file.version };
    let admitted = volume.admit_replace(&mut disk, 7, 0, request, b"new").unwrap();
    assert_eq!(admitted.state, AdmissionState::Admitted);
    let sequence = volume.sequence();
    let cancelled = volume.cancel_admission(&mut disk, 7, admitted.id).unwrap();
    assert_eq!(cancelled.state, AdmissionState::Cancelled);
    assert_eq!(cancelled.terminal, sequence + 1);
    assert_eq!(cancelled.id, admitted.id);
    assert_eq!(volume.admission_by_id(7, admitted.id).unwrap().status, cancelled);
    assert_eq!(volume.cancel_admission(&mut disk, 7, admitted.id), Ok(cancelled));
    assert_eq!(volume.sequence(), sequence + 1);
}

#[test]
fn a_v6_tracked_write_replays_its_receipt() {
    let mut disk = MemDisk::new(4096);
    let mut volume = provision(&mut disk, [3; 16]).unwrap();
    let mut file = Node6::empty();
    file.id = 5;
    file.parent = 2;
    file.version = 1;
    file.kind = Kind::File;
    file.space = 2;
    volume.nodes[4] = file;
    let retry = Retry { lineage: [3; 16], epoch: 1, key: 9 };
    let bytes = vec![1u8; 600];
    let first = volume.write_tracked(&mut disk, 4, 1, retry, &bytes).unwrap();
    assert_eq!(first.previous, 1);
    assert_eq!(first.length, 600);
    assert_eq!(first.committed, 2);
    let version = volume.nodes[4].version;
    assert_eq!(version, 2);
    let again = volume.write_tracked(&mut disk, 4, 1, retry, &bytes).unwrap();
    assert_eq!(again, first);
    assert_eq!(volume.nodes[4].version, version);
    assert_eq!(volume.write_tracked(&mut disk, 4, 1, retry, &bytes[..10]).err(), Some(Error::IdempotencyConflict));
}

#[test]
fn a_v5_read_pinned_to_the_replaced_version_returns_the_bytes() {
    let mut disk = MemDisk::new(SECTORS);
    let mut volume = Volume::initialize(&mut disk).unwrap();
    let node = volume.create(&mut disk, 2, b"f", Kind::File).unwrap();
    let written = volume.replace(&mut disk, node.id, node.version, b"abc").unwrap();
    let mut out = [9u8; 8];
    let (shown, count) = volume.read_versioned(&mut disk, node.id, Some(written.version), 0, &mut out).unwrap();
    assert_eq!(count, 3);
    assert_eq!(shown.version, written.version);
    assert_eq!(shown.checksum, written.checksum);
    assert_eq!(&out[..3], b"abc");
    assert_eq!(&out[3..], &[9u8; 5]);
    assert_eq!(volume.read_versioned(&mut disk, node.id, Some(node.version), 0, &mut out).err().unwrap(), Error::Version);
    let mut empty = [7u8; 4];
    let created = volume.create(&mut disk, 2, b"g", Kind::File).unwrap();
    let (shown, count) = volume.read_versioned(&mut disk, created.id, None, 0, &mut empty).unwrap();
    assert_eq!(count, 0);
    assert_eq!(shown.id, created.id);
    assert_eq!(empty, [7u8; 4]);
}
