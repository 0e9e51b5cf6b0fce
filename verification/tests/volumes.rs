use rusticfs::extent::{Extent, FreeSpace, MAP_WORDS, DATA_SECTORS};
use rusticfs::format6::Node6;
use rusticfs::namespace::Kind;
use rusticfs::storage::{Disk, MemDisk};
use rusticfs::volume::Volume;
use rusticfs::volume6::{mount, provision};
use rusticfs::{Error, SECTORS};

#[test]
fn v5_initialize_create_replace_and_read_back() {
    let mut disk = MemDisk::new(SECTORS);
    let mut volume = Volume::initialize(&mut disk).unwrap();
    let node = volume.create(&mut disk, 2, b"hello", Kind::File).unwrap();
    assert_eq!(volume.lookup(2, b"hello").unwrap().id, node.id);
    assert_eq!(volume.create(&mut disk, 2, b"hello", Kind::File).err(), Some(Error::Exists));
    let written = volume.replace(&mut disk, node.id, node.version, b"Hello from RusticOS").unwrap();
    assert_eq!(written.length, 19);
    let mut out = [0u8; 32];
    assert_eq!(volume.read(&mut disk, node.id, 0, &mut out), Ok(19));
    assert_eq!(&out[..19], b"Hello from RusticOS");
    assert_eq!(volume.replace(&mut disk, node.id, node.version, b"stale").err(), Some(Error::Version));
    let again = Volume::mount(&mut disk).unwrap();
    let mut out = [0u8; 5];
    assert_eq!(again.read(&mut disk, node.id, 6, &mut out), Ok(5));
    assert_eq!(&out, b"from ");
}

#[test]
fn v5_blank_device_does_not_mount() {
    let mut disk = MemDisk::new(SECTORS);
    assert!(Volume::mount(&mut disk).is_err());
}

#[test]
fn v5_remove_refuses_roots_and_nonempty_directories() {
    let mut disk = MemDisk::new(SECTORS);
    let mut volume = Volume::initialize(&mut disk).unwrap();
    let dir = volume.create(&mut disk, 2, b"dir", Kind::Directory).unwrap();
    let file = volume.create(&mut disk, dir.id, b"f", Kind::File).unwrap();
    assert_eq!(volume.remove(&mut disk, dir.id), Err(Error::NotEmpty));
    assert_eq!(volume.remove(&mut disk, 2), Err(Error::ReadOnly));
    volume.remove(&mut disk, file.id).unwrap();
    volume.remove(&mut disk, dir.id).unwrap();
    assert_eq!(volume.stat(dir.id).err(), Some(Error::NotFound));
}

#[test]
fn v6_provision_write_read_and_remount() {
    let mut disk = MemDisk::new(4096);
    let mut volume = provision(&mut disk, [3; 16]).unwrap();
    assert_eq!(volume.nodes[1].id, 2);
    let mut file = Node6::empty();
    file.id = 5;
    file.parent = 2;
    file.version = 1;
    file.kind = Kind::File;
    file.space = 2;
    volume.nodes[4] = file;
    let bytes: Vec<u8> = (0..700u32).map(|i| (i * 7 % 256) as u8).collect();
    let version = volume.write_file(&mut disk, 4, 1, &bytes).unwrap();
    assert!(version > 1);
    assert_eq!(volume.write_file(&mut disk, 4, 1, &bytes).err(), Some(Error::Version));
    let again = mount(&mut disk).unwrap();
    let node = again.nodes[4];
    assert_eq!(node.length, 700);
    let mut out = vec![0u8; 800];
    assert_eq!(again.read_range(&mut disk, &node, 0, &mut out), Ok(700));
    assert_eq!(&out[..700], &bytes[..]);
    assert_eq!(again.read_range(&mut disk, &node, 701, &mut out), Err(Error::Size));
}

#[test]
fn v6_zero_lineage_is_invalid() {
    let mut disk = MemDisk::new(4096);
    assert_eq!(provision(&mut disk, [0; 16]).err(), Some(Error::Invalid));
}

#[test]
fn v6_unprovisioned_medium_does_not_mount() {
    let mut disk = MemDisk::new(4096);
    assert!(mount(&mut disk).is_err());
}

#[test]
fn release_restores_what_allocation_took() {
    let mut space = FreeSpace::new(vec![0u64; MAP_WORDS]).unwrap();
    let before = space.free_sectors();
    let run = space.allocate(10).unwrap();
    assert_eq!(run, Extent::new(0, 10));
    assert_eq!(space.free_sectors(), before - 10);
    assert!(space.get(9));
    space.release(run).unwrap();
    assert_eq!(space.free_sectors(), before);
    assert_eq!(space.release(run), Err(Error::Invalid));
    assert_eq!(space.into_words(), vec![0u64; MAP_WORDS]);
    assert_eq!(DATA_SECTORS, 64 * MAP_WORDS as u64);
}

#[test]
fn free_space_refuses_zero_and_oversized_runs() {
    let mut space = FreeSpace::new(vec![0u64; MAP_WORDS]).unwrap();
    assert_eq!(space.allocate(0), Err(Error::Size));
    assert_eq!(space.allocate(513), Err(Error::Size));
    assert_eq!(FreeSpace::new(vec![0u64; 3]).err(), Some(Error::Size));
}

#[test]
fn memory_disk_refuses_sectors_past_its_end() {
    let mut disk = MemDisk::new(4);
    let mut block = [1u8; 512];
    assert_eq!(disk.read(4, &mut block), Err(Error::Io));
    assert_eq!(disk.write(3, &[9u8; 512]), Ok(()));
    disk.read(3, &mut block).unwrap();
    assert_eq!(block, [9u8; 512]);
}
