use rusticfs::checksum::crc;
use rusticfs::namespace::Kind;
use rusticfs::recovery::Retry;
use rusticfs::storage::{Disk, MemDisk};
use rusticfs::tracking::Replacement;
use rusticfs::volume::Volume;
use rusticfs::volume7::upgrade::upgrade_v5_to_v7;
use rusticfs::volume7::Volume7;
use rusticfs::Error;

const LINEAGE: [u8; 16] = [7; 16];

fn source_with_file() -> (MemDisk, u32) {
    let mut disk = MemDisk::new(4096);
    let mut volume = Volume::initialize(&mut disk).unwrap();
    let file = volume.create(&mut disk, 2, b"notes", Kind::File).unwrap();
    volume.replace(&mut disk, file.id, file.version, b"carried across layouts").unwrap();
    (disk, file.id)
}

fn envelope(lineage: [u8; 16]) -> [u8; 512] {
    let mut b = [0u8; 512];
    b[..8].copy_from_slice(b"RUSTVOL1");
    b[8..24].copy_from_slice(&lineage);
    let sum = crc(&b);
    b[24..28].copy_from_slice(&sum.to_le_bytes());
    b
}

#[test]
fn migration_to_v7_keeps_records_and_bytes_and_mounts() {
    let (mut source, file) = source_with_file();
    let before = Volume::mount(&mut source).unwrap();
    let mut target = MemDisk::new(4096);
    let mut volume = Volume7::empty();
    upgrade_v5_to_v7(&mut source, &mut target, &mut volume, LINEAGE).unwrap();
    let header = *volume.header().unwrap();
    assert_eq!(header.lineage, LINEAGE);
    assert_eq!(header.epoch, 1);
    assert_eq!(header.generation, 0);
    assert_eq!(header.sequence, before.sequence());
    let node = volume.stat(file).unwrap();
    assert_eq!(node.kind, Kind::File);
    assert_eq!(node.length, 22);
    let mut out = [0u8; 32];
    assert_eq!(volume.read_range(&mut target, file, None, 0, &mut out), Ok(22));
    assert_eq!(&out[..22], b"carried across layouts");

    let mut again = Volume7::empty();
    again.mount_into(&mut target).unwrap();
    assert_eq!(*again.header().unwrap(), header);
    assert_eq!(again.lookup(2, b"notes").unwrap().id, file);
    let mut out = [0u8; 22];
    assert_eq!(again.read_range(&mut target, file, None, 0, &mut out), Ok(22));
    assert_eq!(&out, b"carried across layouts");
    assert!(Volume::mount(&mut source).is_ok());
}

#[test]
fn migration_to_v7_refuses_a_zero_lineage() {
    let (mut source, _) = source_with_file();
    let mut target = MemDisk::new(4096);
    let mut volume = Volume7::empty();
    assert_eq!(upgrade_v5_to_v7(&mut source, &mut target, &mut volume, [0; 16]), Err(Error::Invalid));
    assert_eq!(volume.header().err(), Some(Error::Uncertain));
}

#[test]
fn migration_to_v7_refuses_a_used_target() {
    let (mut source, _) = source_with_file();
    let mut target = MemDisk::new(4096);
    let mut volume = Volume7::empty();
    upgrade_v5_to_v7(&mut source, &mut target, &mut volume, LINEAGE).unwrap();
    let mut other = Volume7::empty();
    assert_eq!(upgrade_v5_to_v7(&mut source, &mut target, &mut other, LINEAGE), Err(Error::Exists));
    assert_eq!(other.nodes().err(), Some(Error::Uncertain));
}

#[test]
fn migration_to_v7_refuses_another_envelope_lineage() {
    let (mut source, _) = source_with_file();
    source.write(1, &envelope([9; 16])).unwrap();
    let mut target = MemDisk::new(4096);
    let mut volume = Volume7::empty();
    assert_eq!(upgrade_v5_to_v7(&mut source, &mut target, &mut volume, LINEAGE), Err(Error::Lineage));
    source.write(1, &envelope(LINEAGE)).unwrap();
    assert_eq!(upgrade_v5_to_v7(&mut source, &mut target, &mut volume, LINEAGE), Ok(()));
}

#[test]
fn migration_to_v7_refuses_a_damaged_envelope() {
    let (mut source, _) = source_with_file();
    let mut bad = envelope(LINEAGE);
    bad[40] = 1;
    source.write(1, &bad).unwrap();
    let mut target = MemDisk::new(4096);
    let mut volume = Volume7::empty();
    assert_eq!(upgrade_v5_to_v7(&mut source, &mut target, &mut volume, LINEAGE), Err(Error::Corrupt));
}

#[test]
fn migration_to_v7_carries_a_scoped_record_onto_the_live_runs() {
    let mut source = MemDisk::new(4096);
    let mut volume = Volume::initialize(&mut source).unwrap();
    volume.enable_recovery(&mut source, LINEAGE).unwrap();
    volume.enable_operations(&mut source).unwrap();
    let dir = volume.create(&mut source, 2, b"work", Kind::Directory).unwrap();
    let file = volume.create(&mut source, dir.id, b"f", Kind::File).unwrap();
    let retry = Retry { lineage: LINEAGE, epoch: 1, key: 3 };
    let request = Replacement { workspace: dir.id, retry, id: file.id, version: file.version };
    let receipt = volume.replace_scoped(&mut source, 11, 1, request, b"scoped bytes").unwrap();
    let mut target = MemDisk::new(4096);
    let mut migrated = Volume7::empty();
    upgrade_v5_to_v7(&mut source, &mut target, &mut migrated, LINEAGE).unwrap();
    let records = migrated.retained_records().unwrap();
    let record = records.iter().flatten().next().copied().unwrap();
    assert_eq!(record.object, file.id);
    assert_eq!(record.workspace, dir.id);
    assert_eq!(record.committed, receipt.committed);
    let node = migrated.stat(file.id).unwrap();
    assert_eq!(record.extents, node.extents);
    assert_eq!(record.extents_used, node.extents_used);
    let mut again = Volume7::empty();
    again.mount_into(&mut target).unwrap();
    let mut out = [0u8; 12];
    assert_eq!(again.read_range(&mut target, file.id, None, 0, &mut out), Ok(12));
    assert_eq!(&out, b"scoped bytes");
}

#[test]
fn migration_to_v7_refuses_an_unscoped_record() {
    let mut source = MemDisk::new(4096);
    let mut volume = Volume::initialize(&mut source).unwrap();
    volume.enable_recovery(&mut source, LINEAGE).unwrap();
    let file = volume.create(&mut source, 2, b"f", Kind::File).unwrap();
    let retry = Retry { lineage: LINEAGE, epoch: 1, key: 3 };
    volume.replace_tracked(&mut source, 11, retry, file.id, file.version, b"plain").unwrap();
    let mut target = MemDisk::new(4096);
    let mut migrated = Volume7::empty();
    assert_eq!(upgrade_v5_to_v7(&mut source, &mut target, &mut migrated, LINEAGE), Err(Error::Unsupported));
}
