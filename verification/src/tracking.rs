//! Durable replacement evidence on a live v5 volume: enabling the recovery
//! area, receipts of tracked replacements, retention epochs, and operations
//! scoped to a workspace. Authorization belongs to the caller.
use vstd::prelude::*;
use crate::admission::AdmissionState;
use crate::checksum::spec_crc;
use crate::format::{Metadata, apply_steps, spec_write_steps, recovery_image, find_id, spec_data_sector};
use crate::namespace::Node;
use crate::publication::{Publication, Plan, plan_total, apply_plan, PublicationPhase};
use crate::recovery::{Receipt, Record, Recovery, Retry, free_slot, record_holds, make_record, holds_bytes, RETAINED, RECOVERY_BYTES};
use crate::storage::Disk;
use crate::volume::{Volume, with_sequence, replaced, padded};
use crate::{Error, MAX_FILE, SECTORS};

verus! {

/// A fresh recovery area for `lineage`: epoch 1, no features, no records.
pub open spec fn fresh_recovery(r: Recovery, lineage: [u8; 16]) -> bool {
    &&& r.lineage == lineage
    &&& r.epoch == 1
    &&& !r.scoped && !r.admissions && !r.reasons
    &&& r.records@ == seq![None::<Record>, None::<Record>]
}

/// Sector `s` of the scratch area holds zeros or the matching bytes of `image`.
pub open spec fn scratch_ok(c: Map<u64, Seq<u8>>, image: Seq<u8>, s: u64) -> bool {
    &&& c.dom().contains(s)
    &&& c[s].len() == 512
    &&& forall|i: int| 0 <= i < 512 ==> #[trigger] c[s][i] == 0 || c[s][i] == image[((s - 160) % 7) * 512 + i]
}

/// Only zeros or a torn copy of `image` stand in the recovery sectors.
pub open spec fn scratch_resumable(c: Map<u64, Seq<u8>>, image: Seq<u8>) -> bool {
    forall|s: u64| 160 <= s < SECTORS ==> #[trigger] scratch_ok(c, image, s)
}

/// A record whose admission is still open.
pub open spec fn open_admission(slot: Option<Record>) -> bool {
    slot matches Some(r) && r.admission matches Some(a) && a.state == AdmissionState::Admitted
}

/// The area holds an open admission.
pub open spec fn busy(r: Recovery) -> bool {
    open_admission(r.records@[0]) || open_admission(r.records@[1])
}

impl Volume {
    /// What `enable_recovery` does before anything is read: `Ok(true)` to
    /// publish a fresh area, `Ok(false)` when this lineage is already enabled.
    pub open spec fn spec_enable_recovery(&self, lineage: [u8; 16]) -> Result<bool, Error> {
        if self.poisoned() {
            Err(Error::Uncertain)
        } else if self.metadata().recovery is Some {
            if self.metadata().recovery.unwrap().lineage == lineage {
                Ok(false)
            } else {
                Err(Error::Lineage)
            }
        } else if lineage@ == Seq::new(16, |i: int| 0u8) {
            Err(Error::Invalid)
        } else if self.metadata().sequence == u64::MAX {
            Err(Error::Exhausted)
        } else {
            Ok(true)
        }
    }

    /// One-way upgrade to a recovery area of `lineage`, authorized by the
    /// caller. File extents are untouched. Only zeros or a torn copy of the
    /// initial area may stand in its sectors.
    pub fn enable_recovery<D: Disk>(&mut self, disk: &mut D, lineage: [u8; 16]) -> (r: Result<(), Error>)
        requires
            old(self).wf(),
        ensures
            final(self).wf(),
            old(self).spec_enable_recovery(lineage) matches Err(e) ==> r == Err::<(), Error>(e) && *final(self) == *old(self)
                && final(disk).contents() == old(disk).contents(),
            old(self).spec_enable_recovery(lineage) == Ok::<bool, Error>(false) ==> r is Ok && *final(self) == *old(self)
                && final(disk).contents() == old(disk).contents(),
            old(self).spec_enable_recovery(lineage) == Ok::<bool, Error>(true) ==> {
                &&& r is Ok ==> {
                    let m = final(self).metadata();
                    &&& m.recovery is Some && fresh_recovery(m.recovery.unwrap(), lineage)
                    &&& scratch_resumable(old(disk).contents(), recovery_image(m.recovery.unwrap()))
                    &&& m == Metadata { sequence: (old(self).metadata().sequence + 1) as u64, recovery: m.recovery, ..old(self).metadata() }
                    &&& final(self).bank() == 1 - old(self).bank()
                    &&& !final(self).poisoned()
                    &&& final(disk).contents() == apply_steps(old(disk).contents(), m, (1 - old(self).bank()) as u8, spec_write_steps(m))
                }
                &&& r is Err ==> final(self).metadata() == old(self).metadata()
            },
    {
        self.ready()?;
        if let Some(recovery) = &self.live().recovery {
            if crate::codec::same_bytes(&recovery.lineage, &lineage) {
                return Ok(());
            }
            return Err(Error::Lineage);
        }
        let initial = Recovery::new(lineage)?;
        if self.sequence() == u64::MAX {
            return Err(Error::Exhausted);
        }
        let expected = initial.encode();
        proof {
            crate::format::lemma_recovery_image(expected@, initial);
        }
        let ghost c = disk.contents();
        let mut sector: u64 = 160;
        while sector < SECTORS
            invariant
                160 <= sector <= SECTORS,
                disk.contents() == c,
                c == old(disk).contents(),
                *self == *old(self),
                old(self).wf(),
                old(self).spec_enable_recovery(lineage) == Ok::<bool, Error>(true),
                expected@ == recovery_image(initial),
                expected@.len() == RECOVERY_BYTES,
                forall|s: u64| 160 <= s < sector ==> #[trigger] scratch_ok(c, expected@, s),
            decreases SECTORS - sector,
        {
            let mut bytes = [0u8; 512];
            disk.read(sector, &mut bytes)?;
            let offset = ((sector - 160) % 7) as usize * 512;
            let mut i: usize = 0;
            while i < 512
                invariant
                    0 <= i <= 512,
                    disk.contents() == c,
                    c == old(disk).contents(),
                    *self == *old(self),
                    old(self).wf(),
                    old(self).spec_enable_recovery(lineage) == Ok::<bool, Error>(true),
                    offset + 512 <= RECOVERY_BYTES,
                    offset == ((sector - 160) % 7) * 512,
                    expected@.len() == RECOVERY_BYTES,
                    forall|k: int| 0 <= k < i ==> bytes@[k] == 0 || bytes@[k] == expected@[offset + k],
                decreases 512 - i,
            {
                if bytes[i] != 0 && bytes[i] != expected[offset + i] {
                    return Err(Error::Corrupt);
                }
                i = i + 1;
            }
            assert(c[sector] == bytes@);
            assert(scratch_ok(c, expected@, sector));
            sector = sector + 1;
        }
        let mut next = *self.live();
        next.recovery = Some(initial);
        assert(next.inv());
        self.commit(disk, next)
    }

    /// The lineage and epoch of the recovery area.
    pub open spec fn spec_recovery_info(&self) -> Result<([u8; 16], u64), Error> {
        if self.poisoned() {
            Err(Error::Uncertain)
        } else {
            match self.metadata().recovery {
                None => Err(Error::Unsupported),
                Some(r) => Ok((r.lineage, r.epoch)),
            }
        }
    }

    pub fn recovery_info(&self) -> (r: Result<([u8; 16], u64), Error>)
        ensures
            r == self.spec_recovery_info(),
    {
        self.ready()?;
        match &self.live().recovery {
            None => Err(Error::Unsupported),
            Some(r) => Ok((r.lineage, r.epoch)),
        }
    }

    /// The receipt retained for `subject` and `retry`.
    pub open spec fn spec_receipt(&self, subject: u64, retry: Retry) -> Result<Receipt, Error> {
        if self.poisoned() {
            Err(Error::Uncertain)
        } else {
            match self.metadata().recovery {
                None => Err(Error::Unsupported),
                Some(r) => match r.spec_find(subject, retry) {
                    Err(e) => Err(e),
                    Ok(Some(rec)) => Ok(rec.receipt),
                    Ok(None) => Err(Error::OutcomeUnknown),
                },
            }
        }
    }

    /// The receipt of a committed tracked replacement; `OutcomeUnknown` when
    /// none is retained in the current epoch.
    pub fn receipt(&self, subject: u64, retry: Retry) -> (r: Result<Receipt, Error>)
        ensures
            r == self.spec_receipt(subject, retry),
    {
        self.ready()?;
        match &self.live().recovery {
            None => Err(Error::Unsupported),
            Some(r) => match r.find(subject, retry)? {
                Some(rec) => Ok(rec.receipt),
                None => Err(Error::OutcomeUnknown),
            },
        }
    }

    /// What `advance_epoch` answers before anything is published.
    pub open spec fn spec_advance_epoch(&self) -> Result<u64, Error> {
        if self.poisoned() {
            Err(Error::Uncertain)
        } else {
            match self.metadata().recovery {
                None => Err(Error::Unsupported),
                Some(r) => if busy(r) {
                    Err(Error::Busy)
                } else if r.epoch == u64::MAX || self.metadata().sequence == u64::MAX {
                    Err(Error::Exhausted)
                } else {
                    Ok((r.epoch + 1) as u64)
                },
            }
        }
    }

    /// Owner-controlled retention: a new epoch and the removal of every
    /// retained record publish together. Refused while an admission is open.
    pub fn advance_epoch<D: Disk>(&mut self, disk: &mut D) -> (r: Result<u64, Error>)
        requires
            old(self).wf(),
        ensures
            final(self).wf(),
            old(self).spec_advance_epoch() matches Err(e) ==> r == Err::<u64, Error>(e) && *final(self) == *old(self)
                && final(disk).contents() == old(disk).contents(),
            old(self).spec_advance_epoch() matches Ok(epoch) ==> {
                &&& r matches Ok(e) ==> {
                    let m = final(self).metadata();
                    let old_r = old(self).metadata().recovery.unwrap();
                    &&& e == epoch
                    &&& m.recovery == Some(Recovery { epoch, records: m.recovery.unwrap().records, ..old_r })
                    &&& m.recovery.unwrap().records@ == seq![None::<Record>, None::<Record>]
                    &&& m == Metadata { sequence: (old(self).metadata().sequence + 1) as u64, recovery: m.recovery, ..old(self).metadata() }
                    &&& final(self).bank() == 1 - old(self).bank()
                    &&& final(disk).contents() == apply_steps(old(disk).contents(), m, (1 - old(self).bank()) as u8, spec_write_steps(m))
                }
                &&& r is Err ==> r == Err::<u64, Error>(Error::Uncertain) && final(self).poisoned() && final(self).metadata() == old(self).metadata()
                &&& old(disk).dependable() && crate::format::disk_present5(old(disk).contents()) ==> r is Ok
            },
    {
        self.ready()?;
        let mut next = *self.live();
        let mut r = match next.recovery {
            None => {
                return Err(Error::Unsupported);
            },
            Some(r) => r,
        };
        let mut k: usize = 0;
        while k < RETAINED
            invariant
                0 <= k <= RETAINED,
                *self == *old(self),
                old(self).wf(),
                !old(self).poisoned(),
                old(self).metadata().recovery == Some(r),
                forall|j: int| 0 <= j < k ==> !open_admission(#[trigger] r.records@[j]),
            decreases RETAINED - k,
        {
            if let Some(rec) = r.records[k] {
                if let Some(a) = rec.admission {
                    if a.state == AdmissionState::Admitted {
                        assert(open_admission(r.records@[k as int]));
                        return Err(Error::Busy);
                    }
                }
            }
            k = k + 1;
        }
        if r.epoch == u64::MAX || self.sequence() == u64::MAX {
            return Err(Error::Exhausted);
        }
        r.epoch = r.epoch + 1;
        r.records = [None, None];
        assert(r.records@ =~= seq![None::<Record>, None::<Record>]);
        let epoch = r.epoch;
        next.recovery = Some(r);
        self.commit(disk, next)?;
        Ok(epoch)
    }
}

} // verus!

verus! {

/// A retained record answers a retry with other arguments.
pub open spec fn conflicts(rec: Record, id: u32, version: u64, bytes: Seq<u8>) -> bool {
    rec.receipt.id != id || rec.receipt.previous != version || !(rec.receipt.length == bytes.len()
        && rec.receipt.length <= MAX_FILE && rec.bytes@.take(rec.receipt.length as int) == bytes)
}

/// `m` is `old` at the next sequence with record slot `rs` filled by a record of
/// `subject`, `receipt`, `namespace`, `bytes` and `admission`, and file slot
/// `slot` holding `bytes` in its other bank.
pub open spec fn recorded(
    old: Metadata,
    m: Metadata,
    slot: int,
    rs: int,
    subject: u64,
    receipt: Receipt,
    namespace: Option<(u32, u64)>,
    bytes: Seq<u8>,
    admission: Option<crate::recovery::Stored>,
) -> bool {
    let r0 = old.recovery.unwrap();
    let r1 = m.recovery.unwrap();
    &&& m.sequence == old.sequence + 1
    &&& m.next == old.next
    &&& m.nodes@ == old.nodes@.update(slot, m.nodes@[slot])
    &&& replaced(m.nodes@[slot], old.nodes@[slot], bytes, m.sequence)
    &&& m.recovery is Some
    &&& r1 == Recovery { records: r1.records, ..r0 }
    &&& r1.records@ == r0.records@.update(rs, r1.records@[rs])
    &&& r1.records@[rs] matches Some(rec) && record_holds(rec, subject, receipt, namespace, bytes, admission)
}

/// The plan of a recorded replacement publishing `m` with `bytes` in `slot`.
pub open spec fn recorded_plan(m: Metadata, slot: int, bytes: Seq<u8>) -> Plan {
    (m, padded(bytes), spec_data_sector(slot, m.nodes@[slot].bank), 3nat)
}

impl Volume {
    /// What a tracked replacement answers before anything is written: a
    /// retained receipt to replay, `None` to publish a new one, or the refusal.
    pub open spec fn spec_tracked(&self, subject: u64, retry: Retry, id: u32, version: u64, bytes: Seq<u8>) -> Result<Option<Receipt>, Error> {
        if self.poisoned() {
            Err(Error::Uncertain)
        } else if bytes.len() > MAX_FILE {
            Err(Error::Size)
        } else {
            match self.metadata().recovery {
                None => Err(Error::Unsupported),
                Some(r) => match r.spec_find(subject, retry) {
                    Err(e) => Err(e),
                    Ok(Some(rec)) => if conflicts(rec, id, version, bytes) {
                        Err(Error::IdempotencyConflict)
                    } else {
                        Ok(Some(rec.receipt))
                    },
                    Ok(None) => if free_slot(r.records@) is None {
                        Err(Error::Full)
                    } else if self.metadata().sequence == u64::MAX {
                        Err(Error::Exhausted)
                    } else if self.spec_plan_replace(id, version, bytes.len()) is Err {
                        Err(self.spec_plan_replace(id, version, bytes.len())->Err_0)
                    } else {
                        Ok(None)
                    },
                },
            }
        }
    }

    /// Replace `id`'s bytes and retain a receipt for `subject` and `retry` in
    /// the same publication. A retained receipt with the same arguments is
    /// replayed without I/O; one with other arguments is `IdempotencyConflict`.
    pub fn replace_tracked<D: Disk>(&mut self, disk: &mut D, subject: u64, retry: Retry, id: u32, version: u64, bytes: &[u8]) -> (r: Result<Receipt, Error>)
        requires
            old(self).wf(),
        ensures
            final(self).wf(),
            old(self).spec_tracked(subject, retry, id, version, bytes@) matches Err(e) ==> r == Err::<Receipt, Error>(e)
                && *final(self) == *old(self) && final(disk).contents() == old(disk).contents(),
            old(self).spec_tracked(subject, retry, id, version, bytes@) matches Ok(Some(rc)) ==> r == Ok::<Receipt, Error>(rc)
                && *final(self) == *old(self) && final(disk).contents() == old(disk).contents(),
            old(self).spec_tracked(subject, retry, id, version, bytes@) == Ok::<Option<Receipt>, Error>(None) ==> {
                let m0 = old(self).metadata();
                let slot = find_id(m0.nodes@, id, 0).unwrap();
                let rs = free_slot(m0.recovery.unwrap().records@).unwrap();
                let receipt = Receipt { retry, id, previous: version, committed: (m0.sequence + 1) as u64, length: bytes@.len() as u16 };
                &&& r matches Ok(rc) ==> {
                    let m = final(self).metadata();
                    &&& rc == receipt
                    &&& recorded(m0, m, slot, rs, subject, receipt, None, bytes@, None)
                    &&& final(self).bank() == 1 - old(self).bank()
                    &&& !final(self).poisoned()
                    &&& final(disk).contents() == apply_plan(old(disk).contents(), recorded_plan(m, slot, bytes@), (1 - old(self).bank()) as u8, 0, plan_total(recorded_plan(m, slot, bytes@)))
                }
                &&& r is Err ==> r == Err::<Receipt, Error>(Error::Uncertain) && final(self).poisoned() && final(self).metadata() == m0
            },
    {
        self.ready()?;
        if bytes.len() > MAX_FILE {
            return Err(Error::Size);
        }
        let r = match &self.live().recovery {
            None => {
                return Err(Error::Unsupported);
            },
            Some(r) => *r,
        };
        if let Some(rec) = r.find(subject, retry)? {
            if rec.receipt.id != id || rec.receipt.previous != version || !holds_bytes(&rec, bytes) {
                return Err(Error::IdempotencyConflict);
            }
            return Ok(rec.receipt);
        }
        let rs = match r.free() {
            None => {
                return Err(Error::Full);
            },
            Some(i) => i,
        };
        if self.sequence() == u64::MAX {
            return Err(Error::Exhausted);
        }
        let receipt = Receipt { retry, id, previous: version, committed: self.sequence() + 1, length: bytes.len() as u16 };
        let record = make_record(subject, receipt, None, bytes, None);
        self.publish_recorded(disk, id, version, bytes, r, rs, record, receipt)
    }

    /// Publish `record` into slot `rs` of area `r` together with the
    /// replacement of `id`'s bytes; the result is `result`.
    fn publish_recorded<D: Disk, T: Copy>(&mut self, disk: &mut D, id: u32, version: u64, bytes: &[u8], r: Recovery, rs: usize, record: Record, result: T) -> (out: Result<T, Error>)
        requires
            old(self).wf(),
            !old(self).poisoned(),
            old(self).metadata().recovery == Some(r),
            rs < RETAINED,
            bytes@.len() <= MAX_FILE,
            record.receipt.length <= MAX_FILE,
        ensures
            final(self).wf(),
            old(self).spec_plan_replace(id, version, bytes@.len()) matches Err(e) ==> out == Err::<T, Error>(e)
                && *final(self) == *old(self) && final(disk).contents() == old(disk).contents(),
            old(self).spec_plan_replace(id, version, bytes@.len()) matches Ok(slot) ==> {
                let m0 = old(self).metadata();
                &&& out matches Ok(t) ==> {
                    let m = final(self).metadata();
                    &&& t == result
                    &&& m.sequence == m0.sequence + 1
                    &&& m.next == m0.next
                    &&& m.nodes@ == m0.nodes@.update(slot, m.nodes@[slot])
                    &&& replaced(m.nodes@[slot], m0.nodes@[slot], bytes@, m.sequence)
                    &&& m.recovery == Some(Recovery { records: m.recovery.unwrap().records, ..r })
                    &&& m.recovery.unwrap().records@ == r.records@.update(rs as int, Some(record))
                    &&& final(self).bank() == 1 - old(self).bank()
                    &&& !final(self).poisoned()
                    &&& final(disk).contents() == apply_plan(old(disk).contents(), recorded_plan(m, slot, bytes@), (1 - old(self).bank()) as u8, 0, plan_total(recorded_plan(m, slot, bytes@)))
                }
                &&& out is Err ==> out == Err::<T, Error>(Error::Uncertain) && final(self).poisoned() && final(self).metadata() == m0
            },
    {
        let mut p = self.prepare_recorded(id, version, bytes, r, rs, record, result)?;
        p.run(self, disk)
    }

    /// Prepare the publication of `record` into slot `rs` of area `r` together
    /// with the replacement of `id`'s bytes, without I/O.
    pub(crate) fn prepare_recorded<T: Copy>(&mut self, id: u32, version: u64, bytes: &[u8], r: Recovery, rs: usize, record: Record, result: T) -> (out: Result<Publication<T>, Error>)
        requires
            old(self).wf(),
            old(self).metadata().recovery == Some(r),
            rs < RETAINED,
            record.receipt.length <= MAX_FILE,
        ensures
            final(self).wf(),
            old(self).spec_plan_replace(id, version, bytes@.len()) matches Err(e) ==> out == Err::<Publication<T>, Error>(e)
                && *final(self) == *old(self),
            old(self).spec_plan_replace(id, version, bytes@.len()) matches Ok(slot) ==> out matches Ok(p) && {
                let m0 = old(self).metadata();
                let m = p.plan().0;
                &&& p.wf()
                &&& p.spec_phase() == PublicationPhase::Preparing
                &&& p.spec_step() == 0
                &&& !p.spec_pending()
                &&& !p.spec_stopping()
                &&& p.spec_result() == result
                &&& p.plan() == recorded_plan(m, slot, bytes@)
                &&& m.sequence == m0.sequence + 1
                &&& m.next == m0.next
                &&& m.nodes@ == m0.nodes@.update(slot, m.nodes@[slot])
                &&& replaced(m.nodes@[slot], m0.nodes@[slot], bytes@, m.sequence)
                &&& m.recovery == Some(Recovery { records: m.recovery.unwrap().records, ..r })
                &&& m.recovery.unwrap().records@ == r.records@.update(rs as int, Some(record))
                &&& final(self).poisoned()
                &&& final(self).metadata() == m0
                &&& final(self).bank() == old(self).bank()
            },
    {
        let mut r2 = r;
        r2.records[rs] = Some(record);
        let mut next = *self.live();
        next.recovery = Some(r2);
        assert(next.inv()) by {
            assert forall|k: int| 0 <= k < RETAINED implies (#[trigger] r2.records@[k] matches Some(x) ==> x.receipt.length <= MAX_FILE) by {
                if k != rs {
                    assert(r2.records@[k] == r.records@[k]);
                }
            }
        }
        let (planned, slot, changed) = self.plan_recorded(id, version, bytes, next)?;
        let p = Publication::new(self, planned, crate::format::data_sector(slot, changed.bank), bytes, true, result);
        assert(p.plan().1 =~= padded(bytes@));
        Ok(p)
    }
}

} // verus!

verus! {

/// A replacement request scoped to a workspace.
#[derive(Clone, Copy, Debug)]
pub struct Replacement {
    pub workspace: u32,
    pub retry: Retry,
    pub id: u32,
    pub version: u64,
}

/// A committed operation as a workspace sees it: its incarnation, receipt
/// and the exact bytes it wrote.
#[derive(Debug)]
pub struct Operation<'a> {
    pub workspace: u32,
    pub instance: u64,
    pub receipt: Receipt,
    pub bytes: &'a [u8],
}

/// What a retained record shows as an operation: its workspace, instance and
/// receipt, or why it is not one.
pub open spec fn spec_operation(rec: Record) -> Result<(u32, u64, Receipt), Error> {
    match rec.namespace {
        None => Err(Error::OutcomeUnknown),
        Some((w, i)) => match rec.admission {
            Some(a) => if a.state == AdmissionState::Admitted {
                Err(Error::Busy)
            } else if a.state == AdmissionState::Cancelled {
                Err(Error::Cancelled)
            } else {
                Ok((w, i, rec.receipt))
            },
            None => Ok((w, i, rec.receipt)),
        },
    }
}

/// `r` is the operation `rec` shows, or its refusal.
pub open spec fn shows_operation(r: Result<Operation, Error>, rec: Record) -> bool {
    match spec_operation(rec) {
        Err(e) => r == Err::<Operation, Error>(e),
        Ok((w, i, rc)) => r matches Ok(op) && op.workspace == w && op.instance == i && op.receipt == rc
            && op.bytes@ == rec.bytes@.take(rc.length as int),
    }
}

/// A slot holding `subject`'s record for `retry` in `workspace`.
pub open spec fn scoped_at(slot: Option<Record>, subject: u64, workspace: u32, retry: Retry) -> bool {
    slot matches Some(r) && r.namespace matches Some((w, _)) && w == workspace && r.subject == subject
        && r.receipt.retry == retry
}

/// A slot holding `subject`'s record committed at `committed`.
pub open spec fn committed_at(slot: Option<Record>, subject: u64, committed: u64) -> bool {
    slot matches Some(r) && r.subject == subject && r.receipt.committed == committed
}

/// The area of a volume whose operations are scoped, or `Unsupported`.
pub open spec fn scoped_area(m: Metadata) -> Result<Recovery, Error> {
    match m.recovery {
        Some(r) => if r.scoped {
            Ok(r)
        } else {
            Err(Error::Unsupported)
        },
        None => Err(Error::Unsupported),
    }
}

fn operation_of(rec: &Record) -> (r: Result<Operation<'_>, Error>)
    requires
        rec.receipt.length <= MAX_FILE,
    ensures
        shows_operation(r, *rec),
{
    let (workspace, instance) = match rec.namespace {
        None => {
            return Err(Error::OutcomeUnknown);
        },
        Some(ns) => ns,
    };
    if let Some(a) = rec.admission {
        if a.state == AdmissionState::Admitted {
            return Err(Error::Busy);
        }
        if a.state == AdmissionState::Cancelled {
            return Err(Error::Cancelled);
        }
    }
    let bytes = vstd::slice::slice_subrange(rec.bytes.as_slice(), 0, rec.receipt.length as usize);
    assert(bytes@ =~= rec.bytes@.take(rec.receipt.length as int));
    Ok(Operation { workspace, instance, receipt: rec.receipt, bytes })
}

impl Volume {
    /// The record a scoped lookup by retry selects, or its refusal.
    pub open spec fn spec_scoped_find(&self, subject: u64, workspace: u32, retry: Retry) -> Result<Record, Error> {
        if self.poisoned() {
            Err(Error::Uncertain)
        } else if scoped_area(self.metadata()) is Err {
            Err(Error::Unsupported)
        } else {
            let r = scoped_area(self.metadata()).unwrap();
            if subject == 0 || workspace == 0 || retry.epoch == 0 || retry.key == 0 {
                Err(Error::Invalid)
            } else if retry.lineage != r.lineage {
                Err(Error::Lineage)
            } else if scoped_at(r.records@[0], subject, workspace, retry) {
                Ok(r.records@[0].unwrap())
            } else if scoped_at(r.records@[1], subject, workspace, retry) {
                Ok(r.records@[1].unwrap())
            } else if retry.epoch != r.epoch {
                Err(Error::ExpiredEpoch)
            } else {
                Err(Error::OutcomeUnknown)
            }
        }
    }

    /// The committed operation of `subject` for `retry` in `workspace`.
    pub fn operation_by_retry(&self, subject: u64, workspace: u32, retry: Retry) -> (r: Result<Operation<'_>, Error>)
        requires
            self.wf(),
        ensures
            self.spec_scoped_find(subject, workspace, retry) matches Err(e) ==> r == Err::<Operation, Error>(e),
            self.spec_scoped_find(subject, workspace, retry) matches Ok(rec) ==> shows_operation(r, rec),
    {
        self.ready()?;
        let r = match &self.live().recovery {
            Some(r) => {
                if !r.scoped {
                    return Err(Error::Unsupported);
                }
                r
            },
            None => {
                return Err(Error::Unsupported);
            },
        };
        if subject == 0 || workspace == 0 || retry.epoch == 0 || retry.key == 0 {
            return Err(Error::Invalid);
        }
        if !crate::codec::same_bytes(&retry.lineage, &r.lineage) {
            return Err(Error::Lineage);
        }
        let mut k: usize = 0;
        while k < RETAINED
            invariant
                0 <= k <= RETAINED,
                self.wf(),
                !self.poisoned(),
                scoped_area(self.metadata()) == Ok::<Recovery, Error>(*r),
                !(subject == 0 || workspace == 0 || retry.epoch == 0 || retry.key == 0),
                retry.lineage == r.lineage,
                forall|j: int| 0 <= j < k ==> !scoped_at(#[trigger] r.records@[j], subject, workspace, retry),
            decreases RETAINED - k,
        {
            if let Some(rec) = &r.records[k] {
                if let Some((w, _)) = rec.namespace {
                    if w == workspace && rec.subject == subject && crate::recovery::same_retry(&rec.receipt.retry, &retry) {
                        assert(r.inv());
                        assert(r.records@[k as int] matches Some(x) ==> x.receipt.length <= MAX_FILE);
                        assert(scoped_at(r.records@[k as int], subject, workspace, retry));
                        return operation_of(rec);
                    }
                }
            }
            k = k + 1;
        }
        if retry.epoch != r.epoch {
            return Err(Error::ExpiredEpoch);
        }
        Err(Error::OutcomeUnknown)
    }

    /// The record a scoped lookup by commit selects, or its refusal.
    pub open spec fn spec_committed_find(&self, subject: u64, lineage: [u8; 16], committed: u64) -> Result<Record, Error> {
        if self.poisoned() {
            Err(Error::Uncertain)
        } else if scoped_area(self.metadata()) is Err {
            Err(Error::Unsupported)
        } else {
            let r = scoped_area(self.metadata()).unwrap();
            if subject == 0 || committed == 0 {
                Err(Error::Invalid)
            } else if lineage != r.lineage {
                Err(Error::Lineage)
            } else if committed_at(r.records@[0], subject, committed) {
                Ok(r.records@[0].unwrap())
            } else if committed_at(r.records@[1], subject, committed) {
                Ok(r.records@[1].unwrap())
            } else {
                Err(Error::OutcomeUnknown)
            }
        }
    }

    /// The committed operation of `subject` published at sequence `committed`.
    pub fn operation_by_id(&self, subject: u64, lineage: [u8; 16], committed: u64) -> (r: Result<Operation<'_>, Error>)
        requires
            self.wf(),
        ensures
            self.spec_committed_find(subject, lineage, committed) matches Err(e) ==> r == Err::<Operation, Error>(e),
            self.spec_committed_find(subject, lineage, committed) matches Ok(rec) ==> shows_operation(r, rec),
    {
        self.ready()?;
        let r = match &self.live().recovery {
            Some(r) => {
                if !r.scoped {
                    return Err(Error::Unsupported);
                }
                r
            },
            None => {
                return Err(Error::Unsupported);
            },
        };
        if subject == 0 || committed == 0 {
            return Err(Error::Invalid);
        }
        if !crate::codec::same_bytes(&lineage, &r.lineage) {
            return Err(Error::Lineage);
        }
        let mut k: usize = 0;
        while k < RETAINED
            invariant
                0 <= k <= RETAINED,
                self.wf(),
                !self.poisoned(),
                scoped_area(self.metadata()) == Ok::<Recovery, Error>(*r),
                !(subject == 0 || committed == 0),
                lineage == r.lineage,
                forall|j: int| 0 <= j < k ==> !committed_at(#[trigger] r.records@[j], subject, committed),
            decreases RETAINED - k,
        {
            if let Some(rec) = &r.records[k] {
                if rec.subject == subject && rec.receipt.committed == committed {
                    assert(r.inv());
                    assert(r.records@[k as int] matches Some(x) ==> x.receipt.length <= MAX_FILE);
                    assert(committed_at(r.records@[k as int], subject, committed));
                    return operation_of(rec);
                }
            }
            k = k + 1;
        }
        Err(Error::OutcomeUnknown)
    }

    /// Whether operations are scoped to workspaces on this volume.
    pub fn operations_enabled(&self) -> (r: Result<bool, Error>)
        ensures
            self.poisoned() ==> r == Err::<bool, Error>(Error::Uncertain),
            !self.poisoned() ==> r == Ok::<bool, Error>(self.metadata().recovery matches Some(x) && x.scoped),
    {
        self.ready()?;
        match &self.live().recovery {
            Some(r) => Ok(r.scoped),
            None => Ok(false),
        }
    }
}

} // verus!

verus! {

/// Format feature `level` (3 scoped operations, 4 admissions, 5 prevention
/// causes) is enabled in `m`.
pub open spec fn has_feature(m: Metadata, level: u8) -> bool {
    m.recovery matches Some(r) && if level == 3 {
        r.scoped
    } else if level == 4 {
        r.admissions
    } else {
        r.reasons
    }
}

/// `m` is `old` with only its sequence advanced, by at most `most`.
pub open spec fn republished(old: Metadata, m: Metadata, most: int) -> bool {
    &&& m == with_sequence(old, m.sequence)
    &&& old.sequence <= m.sequence <= old.sequence + most
}

/// What a scoped replacement answers before anything is written: a committed
/// receipt to replay, `None` to publish a new one, or the refusal.
pub open spec fn spec_scoped_replay(rec: Record, request: Replacement, bytes: Seq<u8>) -> Result<Option<Receipt>, Error> {
    match spec_operation(rec) {
        Err(e) => Err(e),
        Ok((w, i, rc)) => if rc.id != request.id || rc.previous != request.version || rec.bytes@.take(rc.length as int) != bytes {
            Err(Error::IdempotencyConflict)
        } else {
            Ok(Some(rc))
        },
    }
}

impl Volume {
    /// Finish a one-way format upgrade on both banks: unless the other bank
    /// already holds a generation with feature `level`, publish the live one
    /// again so no older-format fallback remains. An unreadable bank raises
    /// the fence.
    fn settle_other_bank<D: Disk>(&mut self, disk: &mut D, level: u8) -> (r: Result<(), Error>)
        requires
            old(self).wf(),
        ensures
            final(self).wf(),
            r is Ok ==> republished(old(self).metadata(), final(self).metadata(), 1) && !final(self).poisoned(),
            r is Err ==> final(self).metadata() == old(self).metadata() && (r == Err::<(), Error>(Error::Uncertain) || r == Err::<(), Error>(Error::Exhausted)),
            !old(self).poisoned() && r is Err ==> r == Err::<(), Error>(Error::Uncertain) || *final(self) == *old(self),
    {
        let other = 1 - self.live_bank();
        match Metadata::read(disk, other) {
            Ok(m) => {
                let present = match &m.recovery {
                    Some(x) => if level == 3 {
                        x.scoped
                    } else if level == 4 {
                        x.admissions
                    } else {
                        x.reasons
                    },
                    None => false,
                };
                if present {
                    if self.ready().is_err() {
                        return Err(Error::Uncertain);
                    }
                    return Ok(());
                }
            },
            Err(Error::Corrupt) | Err(Error::Empty) => {},
            Err(_) => {
                self.fence();
                return Err(Error::Uncertain);
            },
        }
        let live = *self.live();
        self.commit(disk, live)
    }

    /// What enabling a feature answers before anything is published.
    pub open spec fn spec_enable(&self, level: u8) -> Result<Recovery, Error> {
        if self.poisoned() {
            Err(Error::Uncertain)
        } else {
            match self.metadata().recovery {
                None => Err(Error::Unsupported),
                Some(r) => if level == 4 && !r.scoped {
                    Err(Error::Unsupported)
                } else if level == 5 && !r.admissions {
                    Err(Error::Unsupported)
                } else {
                    Ok(r)
                },
            }
        }
    }

    /// Turn feature `level` on and finish both banks.
    pub(crate) fn enable_feature<D: Disk>(&mut self, disk: &mut D, level: u8) -> (r: Result<(), Error>)
        requires
            old(self).wf(),
            3 <= level <= 5,
        ensures
            final(self).wf(),
            old(self).spec_enable(level) matches Err(e) ==> r == Err::<(), Error>(e) && *final(self) == *old(self)
                && final(disk).contents() == old(disk).contents(),
            old(self).spec_enable(level) matches Ok(r0) ==> {
                &&& r is Ok ==> {
                    let m = final(self).metadata();
                    &&& m.recovery == Some(if level == 3 {
                        Recovery { scoped: true, ..r0 }
                    } else if level == 4 {
                        Recovery { admissions: true, ..r0 }
                    } else {
                        Recovery { reasons: true, ..r0 }
                    })
                    &&& m.nodes == old(self).metadata().nodes
                    &&& m.next == old(self).metadata().next
                    &&& old(self).metadata().sequence <= m.sequence <= old(self).metadata().sequence + 2
                    &&& !final(self).poisoned()
                }
                &&& r is Err ==> r == Err::<(), Error>(Error::Uncertain) || r == Err::<(), Error>(Error::Exhausted)
            },
    {
        self.ready()?;
        let mut r = match self.live().recovery {
            None => {
                return Err(Error::Unsupported);
            },
            Some(r) => r,
        };
        if level == 4 && !r.scoped {
            return Err(Error::Unsupported);
        }
        if level == 5 && !r.admissions {
            return Err(Error::Unsupported);
        }
        let enabled = if level == 3 {
            r.scoped
        } else if level == 4 {
            r.admissions
        } else {
            r.reasons
        };
        let ghost target = if level == 3 {
            Recovery { scoped: true, ..r }
        } else if level == 4 {
            Recovery { admissions: true, ..r }
        } else {
            Recovery { reasons: true, ..r }
        };
        if !enabled {
            if level == 3 {
                r.scoped = true;
            } else if level == 4 {
                r.admissions = true;
            } else {
                r.reasons = true;
            }
            let mut next = *self.live();
            next.recovery = Some(r);
            self.commit(disk, next)?;
        } else {
            assert(r == target);
        }
        self.settle_other_bank(disk, level)
    }

    /// Explicit one-way publication of scoped operations. Legacy receipts
    /// keep their (absent) namespace.
    pub fn enable_operations<D: Disk>(&mut self, disk: &mut D) -> (r: Result<(), Error>)
        requires
            old(self).wf(),
        ensures
            final(self).wf(),
            old(self).spec_enable(3) matches Err(e) ==> r == Err::<(), Error>(e) && *final(self) == *old(self)
                && final(disk).contents() == old(disk).contents(),
            old(self).spec_enable(3) matches Ok(r0) ==> {
                &&& r is Ok ==> {
                    let m = final(self).metadata();
                    &&& m.recovery == Some(Recovery { scoped: true, ..r0 })
                    &&& m.nodes == old(self).metadata().nodes
                    &&& m.next == old(self).metadata().next
                    &&& old(self).metadata().sequence <= m.sequence <= old(self).metadata().sequence + 2
                    &&& !final(self).poisoned()
                }
                &&& r is Err ==> r == Err::<(), Error>(Error::Uncertain) || r == Err::<(), Error>(Error::Exhausted)
            },
    {
        self.enable_feature(disk, 3)
    }

    /// What a scoped replacement answers before anything is written.
    pub open spec fn spec_scoped(&self, subject: u64, instance: u64, request: Replacement, bytes: Seq<u8>) -> Result<Option<Receipt>, Error> {
        let m = self.metadata();
        let found = self.spec_scoped_find(subject, request.workspace, request.retry);
        if self.poisoned() {
            Err(Error::Uncertain)
        } else if bytes.len() > MAX_FILE {
            Err(Error::Size)
        } else if found is Ok {
            spec_scoped_replay(found.unwrap(), request, bytes)
        } else if found->Err_0 != Error::OutcomeUnknown {
            Err(found->Err_0)
        } else if self.spec_resolve(request.workspace, request.id) is Err {
            Err(self.spec_resolve(request.workspace, request.id)->Err_0)
        } else if free_slot(m.recovery.unwrap().records@) is None {
            Err(Error::Full)
        } else if m.sequence == u64::MAX {
            Err(Error::Exhausted)
        } else if instance > m.sequence + 1 {
            Err(Error::Invalid)
        } else if self.spec_plan_replace(request.id, request.version, bytes.len()) is Err {
            Err(self.spec_plan_replace(request.id, request.version, bytes.len())->Err_0)
        } else {
            Ok(None)
        }
    }

    /// Prepare a replacement scoped to `request.workspace`, or the replay of
    /// an already committed one. An `instance` of 0 takes the committed
    /// sequence as the service incarnation.
    pub fn prepare_scoped(&mut self, subject: u64, instance: u64, request: Replacement, bytes: &[u8]) -> (r: Result<Publication<Receipt>, Error>)
        requires
            old(self).wf(),
        ensures
            final(self).wf(),
            old(self).spec_scoped(subject, instance, request, bytes@) matches Err(e) ==> r == Err::<Publication<Receipt>, Error>(e)
                && *final(self) == *old(self),
            old(self).spec_scoped(subject, instance, request, bytes@) matches Ok(Some(rc)) ==> (r matches Ok(p)
                && p.wf() && p.spec_phase() == PublicationPhase::Committed && p.spec_result() == rc && !p.spec_pending()
                && !p.spec_stopping() && *final(self) == *old(self)),
            old(self).spec_scoped(subject, instance, request, bytes@) == Ok::<Option<Receipt>, Error>(None) ==> (r matches Ok(p) && {
                let m0 = old(self).metadata();
                let slot = find_id(m0.nodes@, request.id, 0).unwrap();
                let rs = free_slot(m0.recovery.unwrap().records@).unwrap();
                let committed = (m0.sequence + 1) as u64;
                let receipt = Receipt { retry: request.retry, id: request.id, previous: request.version, committed, length: bytes@.len() as u16 };
                let ns = Some((request.workspace, if instance == 0 { committed } else { instance }));
                let m = p.plan().0;
                &&& p.wf()
                &&& p.spec_phase() == PublicationPhase::Preparing
                &&& p.spec_step() == 0
                &&& !p.spec_pending()
                &&& !p.spec_stopping()
                &&& p.spec_result() == receipt
                &&& p.plan() == recorded_plan(m, slot, bytes@)
                &&& recorded(m0, m, slot, rs, subject, receipt, ns, bytes@, None)
                &&& final(self).poisoned()
                &&& final(self).metadata() == m0
                &&& final(self).bank() == old(self).bank()
            }),
    {
        self.ready()?;
        if bytes.len() > MAX_FILE {
            return Err(Error::Size);
        }
        match self.operation_by_retry(subject, request.workspace, request.retry) {
            Ok(old) => {
                if old.receipt.id != request.id || old.receipt.previous != request.version || !crate::codec::slices_equal(old.bytes, bytes) {
                    return Err(Error::IdempotencyConflict);
                }
                let receipt = old.receipt;
                return Ok(Publication::replayed(*self.live(), receipt));
            },
            Err(Error::OutcomeUnknown) => {},
            Err(e) => {
                return Err(e);
            },
        }
        self.resolve(request.workspace, request.id)?;
        let r = match self.live().recovery {
            Some(r) => r,
            None => {
                return Err(Error::Unsupported);
            },
        };
        let rs = match r.free() {
            None => {
                return Err(Error::Full);
            },
            Some(i) => i,
        };
        if self.sequence() == u64::MAX {
            return Err(Error::Exhausted);
        }
        let committed = self.sequence() + 1;
        let instance = if instance == 0 { committed } else { instance };
        if instance > committed {
            return Err(Error::Invalid);
        }
        let receipt = Receipt { retry: request.retry, id: request.id, previous: request.version, committed, length: bytes.len() as u16 };
        let record = make_record(subject, receipt, Some((request.workspace, instance)), bytes, None);
        self.prepare_recorded(request.id, request.version, bytes, r, rs, record, receipt)
    }

    /// Replace within a workspace and retain the scoped receipt; a committed
    /// retry is replayed without I/O. A failed publication fences the volume.
    pub fn replace_scoped<D: Disk>(&mut self, disk: &mut D, subject: u64, instance: u64, request: Replacement, bytes: &[u8]) -> (r: Result<Receipt, Error>)
        requires
            old(self).wf(),
        ensures
            final(self).wf(),
            old(self).spec_scoped(subject, instance, request, bytes@) matches Err(e) ==> r == Err::<Receipt, Error>(e)
                && *final(self) == *old(self) && final(disk).contents() == old(disk).contents(),
            old(self).spec_scoped(subject, instance, request, bytes@) matches Ok(Some(rc)) ==> r == Ok::<Receipt, Error>(rc)
                && *final(self) == *old(self) && final(disk).contents() == old(disk).contents(),
            old(self).spec_scoped(subject, instance, request, bytes@) == Ok::<Option<Receipt>, Error>(None) ==> {
                let m0 = old(self).metadata();
                let slot = find_id(m0.nodes@, request.id, 0).unwrap();
                let rs = free_slot(m0.recovery.unwrap().records@).unwrap();
                let committed = (m0.sequence + 1) as u64;
                let receipt = Receipt { retry: request.retry, id: request.id, previous: request.version, committed, length: bytes@.len() as u16 };
                let ns = Some((request.workspace, if instance == 0 { committed } else { instance }));
                &&& r matches Ok(rc) ==> {
                    let m = final(self).metadata();
                    &&& rc == receipt
                    &&& recorded(m0, m, slot, rs, subject, receipt, ns, bytes@, None)
                    &&& final(self).bank() == 1 - old(self).bank()
                    &&& !final(self).poisoned()
                    &&& final(disk).contents() == apply_plan(old(disk).contents(), recorded_plan(m, slot, bytes@), (1 - old(self).bank()) as u8, 0, plan_total(recorded_plan(m, slot, bytes@)))
                }
                &&& r is Err ==> r == Err::<Receipt, Error>(Error::Uncertain) && final(self).poisoned() && final(self).metadata() == m0
            },
    {
        let mut p = self.prepare_scoped(subject, instance, request, bytes)?;
        p.run(self, disk)
    }
}

} // verus!

verus! {

/// A retry replays only what it committed: a tracked replacement answers with
/// a retained receipt exactly when the record the retry finds was made for
/// the same file, on the same version, with exactly the supplied bytes; a
/// found record that differs in any of these makes the retry
/// `IdempotencyConflict`.
pub proof fn lemma_tracked_replay_same_bytes(v: Volume, subject: u64, retry: Retry, id: u32, version: u64, bytes: Seq<u8>)
    ensures
        v.spec_tracked(subject, retry, id, version, bytes) matches Ok(Some(rc)) ==> {
            &&& v.metadata().recovery is Some
            &&& v.metadata().recovery.unwrap().spec_find(subject, retry) matches Ok(Some(rec)) && {
                &&& rc == rec.receipt
                &&& rec.receipt.id == id
                &&& rec.receipt.previous == version
                &&& rec.receipt.length == bytes.len()
                &&& rec.bytes@.take(bytes.len() as int) == bytes
            }
        },
        !v.poisoned() && bytes.len() <= MAX_FILE && v.metadata().recovery is Some
            ==> (v.metadata().recovery.unwrap().spec_find(subject, retry) matches Ok(Some(rec))
            ==> (rec.receipt.id == id && rec.receipt.previous == version && rec.receipt.length == bytes.len()
                && rec.bytes@.take(bytes.len() as int) == bytes
                ==> v.spec_tracked(subject, retry, id, version, bytes) == Ok::<Option<Receipt>, Error>(Some(rec.receipt)))
            && (!(rec.receipt.id == id && rec.receipt.previous == version && rec.receipt.length == bytes.len()
                && rec.bytes@.take(bytes.len() as int) == bytes)
                ==> v.spec_tracked(subject, retry, id, version, bytes) == Err::<Option<Receipt>, Error>(Error::IdempotencyConflict))),
{
}

} // verus!
