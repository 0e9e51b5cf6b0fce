use rusticfs::admission::PreventionReason;
use rusticfs::format7::RecordState;
use rusticfs::namespace::Kind;
use rusticfs::storage::{Disk, MemDisk};
use rusticfs::volume7::poll::{Begin7, Command7, PollPublication7, Publication7Cancel, Publication7Phase};
use rusticfs::volume7::{Volume7, WriteIdentity7};
use rusticfs::Error;

const LINEAGE: [u8; 16] = [7; 16];

fn fresh_with_file() -> (Volume7, MemDisk, u64) {
    let mut disk = MemDisk::new(4096);
    let mut volume = Volume7::empty();
    volume.provision_into(&mut disk, LINEAGE).unwrap();
    volume.create(&mut disk, 2, b"notes", Kind::File).unwrap();
    let version = volume.stat(5).unwrap().version;
    (volume, disk, version)
}

fn identity(key: u64) -> WriteIdentity7 {
    WriteIdentity7 { subject: 9, workspace: 2, object: 5, instance: 1, retry_epoch: 1, retry_key: key }
}

fn drive(p: &mut PollPublication7, volume: &mut Volume7, disk: &mut MemDisk, bytes: Option<&[u8]>) -> Result<Publication7Phase, Error> {
    loop {
        match p.begin(volume, bytes) {
            Begin7::Settled(r) => return r,
            Begin7::Submit(command) => {
                let mut read = [0u8; 512];
                let outcome = match command {
                    Command7::Read(sector) => disk.read(sector, &mut read),
                    Command7::Write(sector, block) => disk.write(sector, &block),
                    Command7::Flush => disk.flush(),
                };
                let r = match outcome {
                    Err(_) => return p.failed(volume),
                    Ok(()) => p.completed(volume, bytes, &read),
                };
                match r {
                    Ok(Publication7Phase::Committed) | Ok(Publication7Phase::Cancelled) | Err(_) => return r,
                    Ok(_) => {},
                }
            },
        }
    }
}

#[test]
fn admission_then_execution_publishes_the_admitted_bytes() {
    let (mut volume, mut disk, version) = fresh_with_file();
    let bytes = b"admitted payload".to_vec();
    let mut p = volume.prepare_admission(identity(1), version, &bytes).unwrap();
    assert_eq!(drive(&mut p, &mut volume, &mut disk, Some(&bytes)), Ok(Publication7Phase::Committed));
    let admitted = p.result().unwrap();
    assert_eq!(admitted.state, RecordState::Admitted);
    assert_eq!(admitted.length, 16);
    assert_eq!(volume.stat(5).unwrap().version, version);

    let mut again = Volume7::empty();
    again.mount_into(&mut disk).unwrap();
    assert_eq!(again.retained_records().unwrap().iter().flatten().count(), 1);

    let mut p = volume.prepare_execute(identity(1), version).unwrap();
    assert_eq!(drive(&mut p, &mut volume, &mut disk, None), Ok(Publication7Phase::Committed));
    let executed = p.result().unwrap();
    assert_eq!(executed.state, RecordState::AdmittedCommitted);
    let node = volume.stat(5).unwrap();
    assert_eq!(node.version, executed.committed);
    assert_eq!(node.length, 16);
    let mut out = [0u8; 16];
    assert_eq!(volume.read_range(&mut disk, 5, None, 0, &mut out), Ok(16));
    assert_eq!(&out, b"admitted payload");

    let replay = volume.prepare_execute(identity(1), version).unwrap();
    assert_eq!(replay.phase(), Publication7Phase::Committed);
    assert_eq!(replay.result().unwrap().committed, executed.committed);
    let late = volume.prepare_cancellation(identity(1), version, PreventionReason::Requested).unwrap();
    assert_eq!(late.result().unwrap().state, RecordState::AdmittedCommitted);

    let mut mounted = Volume7::empty();
    mounted.mount_into(&mut disk).unwrap();
    let mut out = [0u8; 16];
    assert_eq!(mounted.read_range(&mut disk, 5, None, 0, &mut out), Ok(16));
    assert_eq!(&out, b"admitted payload");
}

#[test]
fn cancellation_keeps_the_file_and_retains_its_cause() {
    let (mut volume, mut disk, version) = fresh_with_file();
    let bytes = vec![3u8; 700];
    let mut p = volume.prepare_admission(identity(2), version, &bytes).unwrap();
    assert_eq!(drive(&mut p, &mut volume, &mut disk, Some(&bytes)), Ok(Publication7Phase::Committed));
    let mut c = volume.prepare_cancellation(identity(2), version, PreventionReason::VersionConflict).unwrap();
    assert_eq!(drive(&mut c, &mut volume, &mut disk, None), Ok(Publication7Phase::Committed));
    let cancelled = c.result().unwrap();
    assert_eq!(cancelled.state, RecordState::Cancelled);
    assert_eq!(cancelled.prevention, Some(PreventionReason::VersionConflict));
    assert_eq!(volume.stat(5).unwrap().version, version);
    assert_eq!(volume.prepare_execute(identity(2), version).err(), Some(Error::Cancelled));
    assert_eq!(volume.prepare_cancellation(identity(2), version, PreventionReason::VersionConflict).unwrap().phase(), Publication7Phase::Committed);
    assert_eq!(volume.prepare_cancellation(identity(2), version, PreventionReason::Requested).err(), Some(Error::IdempotencyConflict));
}

#[test]
fn an_exact_admission_retry_verifies_the_snapshot() {
    let (mut volume, mut disk, version) = fresh_with_file();
    let bytes: Vec<u8> = (0..900u32).map(|i| (i % 13) as u8).collect();
    let mut p = volume.prepare_admission(identity(3), version, &bytes).unwrap();
    assert_eq!(drive(&mut p, &mut volume, &mut disk, Some(&bytes)), Ok(Publication7Phase::Committed));
    let first = p.result().unwrap();
    let mut retry = volume.prepare_admission(identity(3), version, &bytes).unwrap();
    assert_eq!(retry.phase(), Publication7Phase::Retrying);
    assert_eq!(drive(&mut retry, &mut volume, &mut disk, Some(&bytes)), Ok(Publication7Phase::Committed));
    assert_eq!(retry.result().unwrap().admission_number, first.admission_number);
    let mut other = bytes.clone();
    other[899] ^= 1;
    let mut conflict = volume.prepare_admission(identity(3), version, &other).unwrap();
    assert_eq!(drive(&mut conflict, &mut volume, &mut disk, Some(&other)), Err(Error::IdempotencyConflict));
    assert_eq!(conflict.phase(), Publication7Phase::Failed);
    assert_eq!(volume.prepare_admission(identity(3), version, &bytes[..10]).err(), Some(Error::IdempotencyConflict));
}

#[test]
fn execution_after_the_file_moved_is_a_version_conflict() {
    let (mut volume, mut disk, version) = fresh_with_file();
    let bytes = b"late".to_vec();
    let mut p = volume.prepare_admission(identity(4), version, &bytes).unwrap();
    assert_eq!(drive(&mut p, &mut volume, &mut disk, Some(&bytes)), Ok(Publication7Phase::Committed));
    let direct = WriteIdentity7 { subject: 9, workspace: 2, object: 5, instance: 1, retry_epoch: 1, retry_key: 40 };
    volume.replace_tracked(&mut disk, direct, version, b"moved on").unwrap();
    assert_eq!(volume.prepare_execute(identity(4), version).err(), Some(Error::Version));
}

#[test]
fn stopping_before_the_header_changes_nothing() {
    let (mut volume, mut disk, version) = fresh_with_file();
    let bytes = b"undecided".to_vec();
    let mut p = volume.prepare_admission(identity(5), version, &bytes).unwrap();
    assert!(volume.stat(5).is_err());
    assert_eq!(p.abort_before_header(&mut volume), Ok(Publication7Cancel::Cancelled));
    assert_eq!(p.phase(), Publication7Phase::Cancelled);
    assert_eq!(volume.stat(5).unwrap().version, version);
    assert_eq!(volume.retained_records().unwrap().iter().flatten().count(), 0);
    assert_eq!(drive(&mut p, &mut volume, &mut disk, Some(&bytes)), Ok(Publication7Phase::Cancelled));
}

#[test]
fn admission_refusals_come_before_any_io() {
    let (mut volume, _disk, version) = fresh_with_file();
    assert_eq!(volume.prepare_admission(identity(6), version + 1, b"x").err(), Some(Error::Version));
    let mut bad = identity(6);
    bad.retry_epoch = 2;
    assert_eq!(volume.prepare_admission(bad, version, b"x").err(), Some(Error::ExpiredEpoch));
    assert_eq!(volume.prepare_execute(identity(7), version).err(), Some(Error::OutcomeUnknown));
    assert_eq!(volume.prepare_cancellation(bad, version, PreventionReason::Requested).err(), Some(Error::ExpiredEpoch));
    let mut fenced = Volume7::empty();
    assert_eq!(fenced.prepare_admission(identity(6), version, b"x").err(), Some(Error::Uncertain));
}
