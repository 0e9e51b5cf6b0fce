use rusticfs::checksum::crc;
use rusticfs::extent::{Extent, DATA_SECTORS, EXTENTS_PER_FILE, FILE_SECTORS_MAX, MAP_WORDS, MAX_FILE_V6, SECTOR_BYTES};
use rusticfs::format7::{Node7, MAX_EXTENTS, NAME_BYTES};
use rusticfs::namespace::Kind;
use rusticfs::storage::Disk;
use rusticfs::volume6::Volume6;
use rusticfs::volume7::payload::{plan_payload, set_allocated};
use rusticfs::volume7::Volume7;
use rusticfs::Error;

#[test]
fn standard_check_value() {
    assert_eq!(crc(b"123456789"), 0xcbf4_3926);
}

/// A map whose only free sectors are the first `free` of the payload region.
fn free_to(free: u64) -> Vec<u64> {
    let mut map = vec![u64::MAX; MAP_WORDS];
    for sector in 0..free {
        map[sector as usize / 64] &= !(1 << (sector % 64));
    }
    map
}

#[test]
fn a_refused_plan_leaves_the_free_space_map_unchanged() {
    // 100 free sectors cannot hold the 512 sectors a 256 KiB write needs: the
    // first 64-sector reservation succeeds, the second must give it back.
    let mut volume = Volume6::empty();
    volume.map = free_to(100);
    let before = volume.map.clone();
    assert_eq!(volume.reserve(MAX_FILE_V6).err(), Some(Error::Full));
    assert_eq!(volume.map, before, "a refused plan must not leak");
    assert_eq!(volume.free_sectors(), 100);
    assert!(!volume.poisoned(), "a refusal is not an uncertain state");
}

#[test]
fn a_plan_beyond_the_per_file_extent_cap_is_refused_before_the_map_is_touched() {
    let mut volume = Volume6::empty();
    volume.map = free_to(DATA_SECTORS);
    let before = volume.map.clone();
    let bytes = (FILE_SECTORS_MAX as usize + 1) * SECTOR_BYTES as usize;
    assert_eq!(volume.reserve(bytes).err(), Some(Error::Size));
    assert_eq!(volume.map, before);
    assert!(!volume.poisoned());
}

#[test]
fn planner_uses_eight_runs_when_those_are_the_only_free_sectors() {
    let mut map = vec![u64::MAX; MAP_WORDS];
    for sector in (1..=15).step_by(2) {
        set_allocated(&mut map, sector, false);
    }

    let plan = plan_payload(&map, 8 * 512).unwrap();
    assert_eq!(plan.used, MAX_EXTENTS);
    assert!(plan.runs().iter().all(|run| run.sectors == 1));
    assert_eq!(EXTENTS_PER_FILE, MAX_EXTENTS);
}

#[derive(Default)]
struct IoCounts {
    reads: usize,
    writes: usize,
}

impl Disk for IoCounts {
    fn read(&mut self, _: u64, _: &mut [u8; 512]) -> Result<(), Error> {
        self.reads += 1;
        Ok(())
    }

    fn write(&mut self, _: u64, _: &[u8; 512]) -> Result<(), Error> {
        self.writes += 1;
        Ok(())
    }

    fn flush(&mut self) -> Result<(), Error> {
        Ok(())
    }
}

fn volume_with_file(length: u32, extents: [Extent; MAX_EXTENTS], used: u8) -> Volume7 {
    let mut volume = Volume7::empty();
    let mut name = [0; NAME_BYTES];
    name[0] = b'x';
    volume.fenced = false;
    volume.nodes[4] = Node7 {
        id: 5,
        parent: 4,
        version: 1,
        length,
        kind: Kind::File,
        space: 2,
        extents_used: used,
        extents,
        name_length: 1,
        name,
        payload_crc32: 0,
    };
    volume
}

#[test]
fn malformed_extent_geometry_is_refused_before_payload_io() {
    let mut out = [0u8; 1];
    let mut out_of_bounds = [Extent::new(0, 0); MAX_EXTENTS];
    out_of_bounds[0] = Extent::new(DATA_SECTORS, 1);
    let mut overlapping = [Extent::new(0, 0); MAX_EXTENTS];
    overlapping[0] = Extent::new(10, 1);
    overlapping[1] = Extent::new(10, 1);
    let mut undersized = [Extent::new(0, 0); MAX_EXTENTS];
    undersized[0] = Extent::new(20, 1);

    for (length, extents, used) in [
        (1, out_of_bounds, 1),
        (513, overlapping, 2),
        (513, undersized, 1),
    ] {
        let volume = volume_with_file(length, extents, used);
        let mut disk = IoCounts::default();
        assert_eq!(
            volume.read_range(&mut disk, 5, None, 0, &mut out),
            Err(Error::Corrupt)
        );
        assert_eq!(disk.reads, 0);
        assert_eq!(disk.writes, 0);
    }
}
