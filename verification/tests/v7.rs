use rusticfs::format7::RecordState;
use rusticfs::namespace::Kind;
use rusticfs::storage::MemDisk;
use rusticfs::volume7::{Volume7, WriteIdentity7};
use rusticfs::Error;

const LINEAGE: [u8; 16] = [7; 16];

fn fresh() -> (Volume7, MemDisk) {
    let mut disk = MemDisk::new(4096);
    let mut volume = Volume7::empty();
    volume.provision_into(&mut disk, LINEAGE).unwrap();
    (volume, disk)
}

fn identity(object: u32, key: u64) -> WriteIdentity7 {
    WriteIdentity7 { subject: 9, workspace: 2, object, instance: 1, retry_epoch: 1, retry_key: key }
}

#[test]
fn v7_provision_then_mount_selects_the_first_header() {
    let (volume, mut disk) = fresh();
    let header = *volume.header().unwrap();
    let mut again = Volume7::empty();
    again.mount_into(&mut disk).unwrap();
    assert_eq!(*again.header().unwrap(), header);
    assert_eq!(again.recovered_from_header(), Ok(false));
    assert_eq!(again.lookup(0, b"data").unwrap().id, 2);
    assert_eq!(again.free_sectors(), Ok(rusticfs::extent::DATA_SECTORS));
}

#[test]
fn v7_zero_lineage_is_refused() {
    let mut disk = MemDisk::new(4096);
    let mut volume = Volume7::empty();
    assert_eq!(volume.provision_into(&mut disk, [0; 16]), Err(Error::Corrupt));
    assert_eq!(volume.header().err(), Some(Error::Uncertain));
}

#[test]
fn v7_unprovisioned_medium_does_not_mount() {
    let mut disk = MemDisk::new(4096);
    let mut volume = Volume7::empty();
    assert_eq!(volume.mount_into(&mut disk), Err(Error::Corrupt));
    assert_eq!(volume.nodes().err(), Some(Error::Uncertain));
}

#[test]
fn v7_create_lookup_list_and_remove() {
    let (mut volume, mut disk) = fresh();
    let file = volume.create(&mut disk, 2, b"notes", Kind::File).unwrap();
    assert_eq!(file.id, 5);
    assert_eq!(volume.lookup(2, b"notes").unwrap().id, 5);
    assert_eq!(volume.create(&mut disk, 2, b"notes", Kind::File).err(), Some(Error::Exists));
    assert_eq!(volume.create(&mut disk, 1, b"x", Kind::File).err(), Some(Error::ReadOnly));
    assert_eq!(volume.create(&mut disk, 5, b"x", Kind::File).err(), Some(Error::NotDirectory));
    let (cursor, listed) = volume.list(2, 0).unwrap().unwrap();
    assert_eq!(listed.id, 5);
    assert_eq!(volume.list(2, cursor).unwrap().map(|(_, n)| n.id), None);
    let mut again = Volume7::empty();
    again.mount_into(&mut disk).unwrap();
    assert_eq!(again.stat(5).unwrap().id, 5);
    volume.remove(&mut disk, 5).unwrap();
    assert_eq!(volume.stat(5).err(), Some(Error::NotFound));
    assert_eq!(volume.remove(&mut disk, 2).err(), Some(Error::ReadOnly));
}

#[test]
fn v7_tracked_replacement_reads_back_and_replays() {
    let (mut volume, mut disk) = fresh();
    volume.create(&mut disk, 2, b"notes", Kind::File).unwrap();
    let version = volume.stat(5).unwrap().version;
    let bytes: Vec<u8> = (0..1300u32).map(|i| (i % 251) as u8).collect();
    let record = volume.replace_tracked(&mut disk, identity(5, 77), version, &bytes).unwrap();
    assert_eq!(record.state, RecordState::DirectCommitted);
    assert_eq!(record.previous, version);
    let node = volume.stat(5).unwrap();
    assert_eq!(node.length, 1300);
    let mut out = vec![0u8; 2000];
    let count = volume.read_range(&mut disk, 5, Some(node.version), 0, &mut out).unwrap();
    assert_eq!(count, 1300);
    assert_eq!(&out[..count], &bytes[..]);
    let mut tail = [0u8; 10];
    assert_eq!(volume.read_range(&mut disk, 5, None, 1295, &mut tail), Ok(5));
    assert_eq!(&tail[..5], &bytes[1295..]);
    assert_eq!(volume.read_range(&mut disk, 5, None, 1301, &mut tail), Err(Error::Size));
    assert_eq!(volume.read_range(&mut disk, 5, Some(version), 0, &mut tail), Err(Error::Version));
    assert_eq!(volume.read_range(&mut disk, 2, None, 0, &mut tail), Err(Error::IsDirectory));

    let replay = volume.replace_tracked(&mut disk, identity(5, 77), version, &bytes).unwrap();
    assert_eq!(replay.committed, record.committed);
    let mut other = bytes.clone();
    other[0] ^= 1;
    assert_eq!(volume.replace_tracked(&mut disk, identity(5, 77), version, &other).err(), Some(Error::IdempotencyConflict));
    assert_eq!(volume.replace_tracked(&mut disk, identity(5, 78), version, &bytes).err(), Some(Error::Version));

    let mut again = Volume7::empty();
    again.mount_into(&mut disk).unwrap();
    let mut out = vec![0u8; 1300];
    assert_eq!(again.read_range(&mut disk, 5, None, 0, &mut out), Ok(1300));
    assert_eq!(out, bytes);
    assert!(again.retained_records().unwrap().iter().flatten().count() == 1);
}

#[test]
fn v7_fenced_owner_answers_uncertain() {
    let volume = Volume7::empty();
    assert_eq!(volume.stat(1).err(), Some(Error::Uncertain));
    assert_eq!(volume.free_sectors().err(), Some(Error::Uncertain));
    assert_eq!(volume.allocation_map().err(), Some(Error::Uncertain));
}

#[test]
fn v7_maintenance_advances_the_epoch_and_expires_old_retries() {
    let (mut volume, mut disk) = fresh();
    volume.create(&mut disk, 2, b"notes", Kind::File).unwrap();
    let version = volume.stat(5).unwrap().version;
    let bytes = b"retained".to_vec();
    volume.replace_tracked(&mut disk, identity(5, 11), version, &bytes).unwrap();
    assert_eq!(volume.retained_records().unwrap().iter().flatten().count(), 1);
    let free_before = volume.free_sectors().unwrap();
    assert_eq!(volume.maintain_retention(&mut disk), Ok(2));
    assert_eq!(volume.header().unwrap().epoch, 2);
    assert_eq!(volume.retained_records().unwrap().iter().flatten().count(), 0);
    assert_eq!(volume.free_sectors(), Ok(free_before));
    let current = volume.stat(5).unwrap().version;
    assert_eq!(volume.replace_tracked(&mut disk, identity(5, 11), current, &bytes).err(), Some(Error::ExpiredEpoch));
    let mut out = [0u8; 8];
    assert_eq!(volume.read_range(&mut disk, 5, None, 0, &mut out), Ok(8));
    assert_eq!(&out, b"retained");
    let mut again = Volume7::empty();
    again.mount_into(&mut disk).unwrap();
    assert_eq!(again.header().unwrap().epoch, 2);
    assert_eq!(again.retained_records().unwrap().iter().flatten().count(), 0);
}

#[test]
fn v7_maintenance_on_a_fenced_volume_is_uncertain() {
    let mut disk = MemDisk::new(4096);
    let mut volume = Volume7::empty();
    assert_eq!(volume.maintain_retention(&mut disk), Err(Error::Uncertain));
}
