use rusticfs::namespace::Kind;
use rusticfs::storage::MemDisk;
use rusticfs::upgrade6::{upgrade, upgrade_mounted};
use rusticfs::volume::Volume;
use rusticfs::volume6::mount;
use rusticfs::Error;

fn source() -> (MemDisk, u32, u32) {
    let mut disk = MemDisk::new(4096);
    let mut volume = Volume::initialize(&mut disk).unwrap();
    let dir = volume.create(&mut disk, 2, b"docs", Kind::Directory).unwrap();
    let file = volume.create(&mut disk, dir.id, b"readme", Kind::File).unwrap();
    volume.replace(&mut disk, file.id, file.version, b"Hello from RusticOS").unwrap();
    (disk, dir.id, file.id)
}

#[test]
fn upgrade_keeps_records_and_file_bytes() {
    let (mut disk, dir, file) = source();
    let upgraded = upgrade(&mut disk, [5; 16]).unwrap();
    assert_eq!(upgraded.report.files, 1);
    // The four roots are directories too.
    assert_eq!(upgraded.report.directories, 5);
    assert_eq!(upgraded.report.bytes, 19);
    let volume = mount(&mut disk).unwrap();
    let node = volume.nodes.iter().find(|n| n.id == file).copied().unwrap();
    assert_eq!(node.kind, Kind::File);
    assert_eq!(node.parent, dir);
    assert_eq!(&node.name[..node.name_length as usize], b"readme");
    let mut out = [0u8; 32];
    assert_eq!(volume.read_range(&mut disk, &node, 0, &mut out), Ok(19));
    assert_eq!(&out[..19], b"Hello from RusticOS");
    assert!(volume.nodes.iter().any(|n| n.id == dir && n.kind == Kind::Directory));
}

#[test]
fn upgrade_of_an_upgraded_device_is_refused() {
    let (mut disk, _, _) = source();
    upgrade(&mut disk, [5; 16]).unwrap();
    assert_eq!(upgrade(&mut disk, [5; 16]).err(), Some(Error::Exists));
    assert!(Volume::mount(&mut disk).is_err());
}

#[test]
fn upgrade_with_a_zero_lineage_is_invalid() {
    let (mut disk, _, _) = source();
    let source = Volume::mount(&mut disk).unwrap();
    assert_eq!(upgrade_mounted(&mut disk, &source, [0; 16]).err(), Some(Error::Invalid));
    assert!(Volume::mount(&mut disk).is_ok());
}

#[test]
fn upgrade_of_a_blank_device_fails() {
    let mut disk = MemDisk::new(4096);
    assert!(upgrade(&mut disk, [5; 16]).is_err());
}
