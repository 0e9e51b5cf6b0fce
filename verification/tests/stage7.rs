use rusticfs::format7::RecordState;
use rusticfs::namespace::Kind;
use rusticfs::storage::{Disk, MemDisk};
use rusticfs::volume7::poll::{Begin7, Command7, PollPublication7, Publication7Phase};
use rusticfs::volume7::stage::Stage7Kind;
use rusticfs::volume7::{Volume7, WriteIdentity7};
use rusticfs::Error;

const LINEAGE: [u8; 16] = [3; 16];

fn volume_with_files() -> (Volume7, MemDisk) {
    let mut disk = MemDisk::new(4096);
    let mut volume = Volume7::empty();
    volume.provision_into(&mut disk, LINEAGE).unwrap();
    volume.create(&mut disk, 2, b"first", Kind::File).unwrap();
    volume.create(&mut disk, 2, b"second", Kind::File).unwrap();
    (volume, disk)
}

fn identity(object: u32, key: u64) -> WriteIdentity7 {
    WriteIdentity7 { subject: 4, workspace: 2, object, instance: 1, retry_epoch: 1, retry_key: key }
}

fn pattern(length: usize, seed: u8) -> Vec<u8> {
    (0..length).map(|i| (i as u8).wrapping_mul(7).wrapping_add(seed)).collect()
}

fn read_file(volume: &Volume7, disk: &mut MemDisk, id: u32) -> Vec<u8> {
    let length = volume.stat(id).unwrap().length as usize;
    let mut out = vec![0u8; length];
    assert_eq!(volume.read_range(disk, id, None, 0, &mut out), Ok(length));
    out
}

fn drive(p: &mut PollPublication7, volume: &mut Volume7, disk: &mut MemDisk) -> Result<Publication7Phase, Error> {
    loop {
        match p.begin(volume, None) {
            Begin7::Settled(r) => return r,
            Begin7::Submit(command) => {
                let mut read = [0u8; 512];
                let outcome = match command {
                    Command7::Read(sector) => disk.read(sector, &mut read),
                    Command7::Write(sector, block) => disk.write(sector, &block),
                    Command7::Flush => disk.flush(),
                };
                let r = match outcome {
                    Err(_) => return p.failed(volume),
                    Ok(()) => p.completed(volume, None, &read),
                };
                match r {
                    Ok(Publication7Phase::Committed) | Ok(Publication7Phase::Cancelled) | Err(_) => return r,
                    Ok(_) => {},
                }
            },
        }
    }
}

#[test]
fn a_streamed_replacement_publishes_the_supplied_sectors() {
    let (mut volume, mut disk) = volume_with_files();
    let version = volume.stat(5).unwrap().version;
    let bytes = pattern(600, 1);
    let mut stage = volume.open_stage(1, identity(5, 1), version, 600, Stage7Kind::Replacement).unwrap();
    assert_eq!(volume.open_stages(), 1);
    assert_eq!(volume.stage_write(&mut disk, &mut stage, &bytes[..512]), Ok(88));
    assert_eq!(volume.stage_write(&mut disk, &mut stage, &bytes[512..]), Ok(0));
    let record = volume.finish_tracked(&mut disk, &mut stage).unwrap();
    assert_eq!(record.state, RecordState::DirectCommitted);
    assert_eq!(record.length, 600);
    assert_eq!(volume.open_stages(), 0);
    assert_eq!(read_file(&volume, &mut disk, 5), bytes);

    let mut again = Volume7::empty();
    again.mount_into(&mut disk).unwrap();
    assert_eq!(read_file(&again, &mut disk, 5), bytes);

    // The token is stale once the stage has finished.
    assert_eq!(volume.finish_tracked(&mut disk, &mut stage).err(), Some(Error::Invalid));
}

#[test]
fn a_wrong_chunk_size_leaves_the_stage_open_and_unchanged() {
    let (mut volume, mut disk) = volume_with_files();
    let version = volume.stat(5).unwrap().version;
    let bytes = pattern(700, 2);
    let mut stage = volume.open_stage(1, identity(5, 2), version, 700, Stage7Kind::Replacement).unwrap();
    assert_eq!(volume.stage_write(&mut disk, &mut stage, &bytes[..100]), Err(Error::Invalid));
    assert_eq!(volume.finish_tracked(&mut disk, &mut stage).err(), Some(Error::Invalid));
    assert_eq!(volume.stage_write(&mut disk, &mut stage, &bytes[..512]), Ok(188));
    assert_eq!(volume.finish_tracked(&mut disk, &mut stage).err(), Some(Error::Invalid));
    assert_eq!(volume.stage_write(&mut disk, &mut stage, &bytes[512..]), Ok(0));
    assert_eq!(volume.stage_write(&mut disk, &mut stage, &bytes[..1]), Err(Error::Invalid));
    assert!(volume.finish_tracked(&mut disk, &mut stage).is_ok());
    assert_eq!(read_file(&volume, &mut disk, 5), bytes);
}

#[test]
fn stages_are_bounded_and_hold_their_retry_scope() {
    let (mut volume, disk) = volume_with_files();
    let v5 = volume.stat(5).unwrap().version;
    let v6 = volume.stat(6).unwrap().version;
    let first = volume.open_stage(1, identity(5, 1), v5, 10, Stage7Kind::Replacement).unwrap();
    assert_eq!(volume.open_stage(1, identity(5, 1), v5, 10, Stage7Kind::Replacement).err(), Some(Error::Busy));
    let mut d = disk;
    assert_eq!(volume.replace_tracked(&mut d, identity(5, 1), v5, b"0123456789").err(), Some(Error::Busy));
    let _second = volume.open_stage(1, identity(6, 2), v6, 10, Stage7Kind::Admission).unwrap();
    assert_eq!(volume.open_stage(1, identity(6, 3), v6, 10, Stage7Kind::Replacement).err(), Some(Error::Busy));
    assert_eq!(volume.maintain_retention(&mut d), Err(Error::Busy));
    assert_eq!(volume.abort_stage(first), Ok(()));
    assert_eq!(volume.open_stages(), 1);
    assert_eq!(volume.release_stages(), 1);
    assert_eq!(volume.open_stages(), 0);
}

#[test]
fn an_aborted_or_released_token_is_stale() {
    let (mut volume, mut disk) = volume_with_files();
    let version = volume.stat(5).unwrap().version;
    let mut stage = volume.open_stage(1, identity(5, 1), version, 4, Stage7Kind::Replacement).unwrap();
    assert_eq!(volume.release_stages(), 1);
    assert_eq!(volume.stage_write(&mut disk, &mut stage, b"abcd"), Err(Error::Invalid));
    assert_eq!(volume.abort_stage(stage), Err(Error::Invalid));
    assert_eq!(volume.release_stages(), 0);
}

#[test]
fn a_token_of_another_owner_is_refused() {
    let (mut volume, mut disk) = volume_with_files();
    let (mut other, _) = volume_with_files();
    let version = volume.stat(5).unwrap().version;
    let mut stage = volume.open_stage(1, identity(5, 1), version, 4, Stage7Kind::Replacement).unwrap();
    let _theirs = other.open_stage(2, identity(5, 1), version, 4, Stage7Kind::Replacement).unwrap();
    assert_eq!(other.stage_write(&mut disk, &mut stage, b"abcd"), Err(Error::Invalid));
    assert_eq!(volume.stage_write(&mut disk, &mut stage, b"abcd"), Ok(0));
}

#[test]
fn an_owner_without_an_identity_cannot_open_a_stage() {
    let (mut volume, _disk) = volume_with_files();
    let version = volume.stat(5).unwrap().version;
    assert_eq!(volume.open_stage(0, identity(5, 1), version, 4, Stage7Kind::Replacement).err(), Some(Error::Exhausted));
    assert_eq!(volume.open_stages(), 0);
}

#[test]
fn two_fresh_stages_never_share_a_sector() {
    let (mut volume, mut disk) = volume_with_files();
    let v5 = volume.stat(5).unwrap().version;
    let v6 = volume.stat(6).unwrap().version;
    let a = pattern(512, 10);
    let b = pattern(512, 99);
    let mut first = volume.open_stage(1, identity(5, 1), v5, 512, Stage7Kind::Replacement).unwrap();
    let mut second = volume.open_stage(1, identity(6, 2), v6, 512, Stage7Kind::Replacement).unwrap();
    assert_eq!(volume.stage_write(&mut disk, &mut first, &a), Ok(0));
    assert_eq!(volume.stage_write(&mut disk, &mut second, &b), Ok(0));
    // A borrowed-bytes replacement meanwhile plans around both reservations.
    let c = pattern(512, 50);
    let third = WriteIdentity7 { subject: 4, workspace: 2, object: 5, instance: 1, retry_epoch: 1, retry_key: 3 };
    assert_eq!(volume.replace_tracked(&mut disk, third, v5, &c).map(|r| r.length), Ok(512));
    assert_eq!(volume.finish_tracked(&mut disk, &mut second).map(|r| r.length), Ok(512));
    assert_eq!(volume.finish_tracked(&mut disk, &mut first).err(), Some(Error::Version));
    assert_eq!(read_file(&volume, &mut disk, 5), c);
    assert_eq!(read_file(&volume, &mut disk, 6), b);
}

#[test]
fn a_streamed_retry_checks_the_retained_snapshot() {
    let (mut volume, mut disk) = volume_with_files();
    let version = volume.stat(5).unwrap().version;
    let bytes = pattern(520, 4);
    let record = volume.replace_tracked(&mut disk, identity(5, 7), version, &bytes).unwrap();

    let mut same = volume.open_stage(1, identity(5, 7), version, 520, Stage7Kind::Replacement).unwrap();
    assert_eq!(volume.stage_write(&mut disk, &mut same, &bytes[..512]), Ok(8));
    assert_eq!(volume.stage_write(&mut disk, &mut same, &bytes[512..]), Ok(0));
    let replayed = volume.finish_tracked(&mut disk, &mut same).unwrap();
    assert_eq!((replayed.committed, replayed.payload_crc32, replayed.length), (record.committed, record.payload_crc32, record.length));

    let mut changed = bytes.clone();
    changed[515] ^= 1;
    let mut differing = volume.open_stage(1, identity(5, 7), version, 520, Stage7Kind::Replacement).unwrap();
    assert_eq!(volume.stage_write(&mut disk, &mut differing, &changed[..512]), Ok(8));
    assert_eq!(volume.stage_write(&mut disk, &mut differing, &changed[512..]), Ok(0));
    assert_eq!(volume.finish_tracked(&mut disk, &mut differing).err(), Some(Error::IdempotencyConflict));

    assert_eq!(volume.open_stage(1, identity(5, 7), version, 519, Stage7Kind::Replacement).err(), Some(Error::IdempotencyConflict));
}

#[test]
fn a_streamed_admission_publishes_from_the_payload_flush() {
    let (mut volume, mut disk) = volume_with_files();
    let version = volume.stat(6).unwrap().version;
    let bytes = pattern(1000, 8);
    let mut stage = volume.open_stage(1, identity(6, 1), version, 1000, Stage7Kind::Admission).unwrap();
    assert_eq!(volume.finish_tracked(&mut disk, &mut stage).err(), Some(Error::Invalid));
    assert_eq!(volume.stage_write(&mut disk, &mut stage, &bytes[..512]), Ok(488));
    assert_eq!(volume.stage_write(&mut disk, &mut stage, &bytes[512..]), Ok(0));
    let mut p = volume.finish_admission(&mut stage).unwrap();
    assert_eq!(drive(&mut p, &mut volume, &mut disk), Ok(Publication7Phase::Committed));
    let admitted = p.result().unwrap();
    assert_eq!(admitted.state, RecordState::Admitted);
    assert_eq!(admitted.length, 1000);
    assert_eq!(volume.stat(6).unwrap().version, version);

    let mut p = volume.prepare_execute(identity(6, 1), version).unwrap();
    assert_eq!(drive(&mut p, &mut volume, &mut disk), Ok(Publication7Phase::Committed));
    assert_eq!(read_file(&volume, &mut disk, 6), bytes);

    // Checking the same request again answers the record as it now stands.
    let mut retry = volume.open_stage(1, identity(6, 1), version, 1000, Stage7Kind::Admission).unwrap();
    assert_eq!(volume.stage_write(&mut disk, &mut retry, &bytes[..512]), Ok(488));
    assert_eq!(volume.stage_write(&mut disk, &mut retry, &bytes[512..]), Ok(0));
    let p = volume.finish_admission(&mut retry).unwrap();
    assert_eq!(p.phase(), Publication7Phase::Committed);
    assert_eq!(p.result().unwrap().state, RecordState::AdmittedCommitted);
}

#[test]
fn an_oversized_stage_is_refused() {
    let (mut volume, _disk) = volume_with_files();
    let version = volume.stat(5).unwrap().version;
    assert_eq!(volume.open_stage(1, identity(5, 1), version, u32::MAX, Stage7Kind::Replacement).err(), Some(Error::Size));
}

#[test]
fn a_fresh_stage_holds_back_a_retained_slot() {
    let (mut volume, mut disk) = volume_with_files();
    for key in 1..8u64 {
        let version = volume.stat(5).unwrap().version;
        volume.replace_tracked(&mut disk, identity(5, key), version, b"x").unwrap();
    }
    let v6 = volume.stat(6).unwrap().version;
    let fresh = volume.open_stage(1, identity(6, 20), v6, 3, Stage7Kind::Replacement).unwrap();
    assert_eq!(volume.open_stage(1, identity(6, 21), v6, 3, Stage7Kind::Replacement).err(), Some(Error::Full));
    assert_eq!(volume.replace_tracked(&mut disk, identity(6, 22), v6, b"abc").err(), Some(Error::Full));
    assert_eq!(volume.abort_stage(fresh), Ok(()));
    assert_eq!(volume.replace_tracked(&mut disk, identity(6, 22), v6, b"abc").map(|r| r.length), Ok(3));
}

#[test]
fn a_remount_releases_every_stage() {
    let (mut volume, mut disk) = volume_with_files();
    let version = volume.stat(5).unwrap().version;
    let mut stage = volume.open_stage(1, identity(5, 1), version, 4, Stage7Kind::Replacement).unwrap();
    volume.mount_into(&mut disk).unwrap();
    assert_eq!(volume.open_stages(), 0);
    assert_eq!(volume.stage_write(&mut disk, &mut stage, b"abcd"), Err(Error::Invalid));
}
