//! Durable admission of scoped replacements on a live v5 volume: admit,
//! look up, cancel with a retained cause, and execute after fresh
//! authorization. These are storage facts, not authorization.
use vstd::prelude::*;
use crate::admission::{AdmissionId, AdmissionState, AdmissionStatus, PreventionReason};
use crate::format::{Metadata, find_id, apply_steps, spec_write_steps};
use crate::namespace::Kind;
use crate::publication::{Publication, PublicationPhase, plan_total, apply_plan};
use crate::recovery::{Receipt, Record, Recovery, Retry, Stored, free_slot, record_holds, make_record, RETAINED};
use crate::storage::Disk;
use crate::tracking::{Replacement, scoped_at, recorded, recorded_plan};
use crate::volume::Volume;
use crate::{Error, MAX_FILE};

verus! {

/// An admitted replacement as its owner sees it.
#[derive(Debug)]
pub struct Admission<'a> {
    pub status: AdmissionStatus,
    pub request: Replacement,
    pub instance: u64,
    pub receipt: Option<Receipt>,
    pub bytes: &'a [u8],
}

/// The status a retained admission record shows.
pub open spec fn status_of(rec: Record) -> AdmissionStatus {
    let a = rec.admission.unwrap();
    AdmissionStatus {
        id: AdmissionId { lineage: rec.receipt.retry.lineage, number: a.number },
        state: a.state,
        terminal: a.terminal,
        prevention: a.prevention,
    }
}

/// Why a retained record is not an admission, if it is not one.
pub open spec fn admission_refusal(rec: Record) -> Option<Error> {
    if rec.admission is None {
        Some(Error::Unsupported)
    } else if rec.namespace is None {
        Some(Error::Corrupt)
    } else {
        None
    }
}

/// `r` is the admission `rec` shows, or its refusal.
pub open spec fn shows_admission(r: Result<Admission, Error>, rec: Record) -> bool {
    match admission_refusal(rec) {
        Some(e) => r == Err::<Admission, Error>(e),
        None => r matches Ok(a) && {
            let (w, i) = rec.namespace.unwrap();
            &&& a.status == status_of(rec)
            &&& a.request.workspace == w
            &&& a.request.retry == rec.receipt.retry
            &&& a.request.id == rec.receipt.id
            &&& a.request.version == rec.receipt.previous
            &&& a.instance == i
            &&& a.receipt == if rec.admission.unwrap().state == AdmissionState::Committed {
                Some(rec.receipt)
            } else {
                None
            }
            &&& a.bytes@ == rec.bytes@.take(rec.receipt.length as int)
        },
    }
}

/// A slot holding `subject`'s admission numbered `number`.
pub open spec fn admission_at(slot: Option<Record>, subject: u64, number: u64) -> bool {
    slot matches Some(r) && r.subject == subject && (r.admission matches Some(a) && a.number == number)
}

/// `m` is `old` at the next sequence with record slot `rs` changed to `rec`.
pub open spec fn rerecorded(old: Metadata, m: Metadata, rs: int, rec: Record) -> bool {
    let r0 = old.recovery.unwrap();
    let r1 = m.recovery.unwrap();
    &&& m.sequence == old.sequence + 1
    &&& m.next == old.next
    &&& m.nodes == old.nodes
    &&& m.recovery is Some
    &&& r1 == Recovery { records: r1.records, ..r0 }
    &&& r1.records@ == r0.records@.update(rs, Some(rec))
}

fn admission_of(rec: &Record) -> (r: Result<Admission<'_>, Error>)
    requires
        rec.receipt.length <= MAX_FILE,
    ensures
        shows_admission(r, *rec),
{
    let a = match rec.admission {
        None => {
            return Err(Error::Unsupported);
        },
        Some(a) => a,
    };
    let (workspace, instance) = match rec.namespace {
        None => {
            return Err(Error::Corrupt);
        },
        Some(ns) => ns,
    };
    let bytes = vstd::slice::slice_subrange(rec.bytes.as_slice(), 0, rec.receipt.length as usize);
    assert(bytes@ =~= rec.bytes@.take(rec.receipt.length as int));
    Ok(Admission {
        status: AdmissionStatus {
            id: AdmissionId { lineage: rec.receipt.retry.lineage, number: a.number },
            state: a.state,
            terminal: a.terminal,
            prevention: a.prevention,
        },
        request: Replacement {
            workspace,
            retry: rec.receipt.retry,
            id: rec.receipt.id,
            version: rec.receipt.previous,
        },
        instance,
        receipt: if a.state == AdmissionState::Committed {
            Some(rec.receipt)
        } else {
            None
        },
        bytes,
    })
}

impl Volume {
    /// The admission-capable area, or why there is none.
    pub open spec fn spec_admissions(&self) -> Result<Recovery, Error> {
        if self.poisoned() {
            Err(Error::Uncertain)
        } else {
            match self.metadata().recovery {
                Some(r) => if r.admissions {
                    Ok(r)
                } else {
                    Err(Error::Unsupported)
                },
                None => Err(Error::Unsupported),
            }
        }
    }

    pub(crate) fn admissions(&self) -> (r: Result<Recovery, Error>)
        ensures
            r == self.spec_admissions(),
    {
        self.ready()?;
        match self.live().recovery {
            Some(r) => {
                if r.admissions {
                    Ok(r)
                } else {
                    Err(Error::Unsupported)
                }
            },
            None => Err(Error::Unsupported),
        }
    }

    /// The slot of `subject`'s admission `id`, or why it cannot be named.
    pub open spec fn spec_admission_slot(&self, subject: u64, id: AdmissionId) -> Result<int, Error> {
        match self.spec_admissions() {
            Err(e) => Err(e),
            Ok(r) => if subject == 0 || id.number == 0 {
                Err(Error::Invalid)
            } else if id.lineage != r.lineage {
                Err(Error::Lineage)
            } else if admission_at(r.records@[0], subject, id.number) {
                Ok(0)
            } else if admission_at(r.records@[1], subject, id.number) {
                Ok(1)
            } else {
                Err(Error::OutcomeUnknown)
            },
        }
    }

    pub(crate) fn admission_slot(&self, subject: u64, id: AdmissionId) -> (r: Result<usize, Error>)
        ensures
            r matches Ok(i) ==> self.spec_admission_slot(subject, id) == Ok::<int, Error>(i as int) && i < RETAINED,
            r matches Err(e) ==> self.spec_admission_slot(subject, id) == Err::<int, Error>(e),
    {
        let r = self.admissions()?;
        if subject == 0 || id.number == 0 {
            return Err(Error::Invalid);
        }
        if !crate::codec::same_bytes(&id.lineage, &r.lineage) {
            return Err(Error::Lineage);
        }
        let mut k: usize = 0;
        while k < RETAINED
            invariant
                0 <= k <= RETAINED,
                self.spec_admissions() == Ok::<Recovery, Error>(r),
                !(subject == 0 || id.number == 0),
                id.lineage == r.lineage,
                forall|j: int| 0 <= j < k ==> !admission_at(#[trigger] r.records@[j], subject, id.number),
            decreases RETAINED - k,
        {
            if let Some(rec) = &r.records[k] {
                if let Some(a) = rec.admission {
                    if rec.subject == subject && a.number == id.number {
                        assert(admission_at(r.records@[k as int], subject, id.number));
                        return Ok(k);
                    }
                }
            }
            k = k + 1;
        }
        Err(Error::OutcomeUnknown)
    }

    /// Requires fresh caller authorization outside storage. Lookup neither
    /// writes nor resumes execution.
    pub fn admission_by_id(&self, subject: u64, id: AdmissionId) -> (r: Result<Admission<'_>, Error>)
        requires
            self.wf(),
        ensures
            self.spec_admission_slot(subject, id) matches Err(e) ==> r == Err::<Admission, Error>(e),
            self.spec_admission_slot(subject, id) matches Ok(k) ==> shows_admission(r, self.metadata().recovery.unwrap().records@[k].unwrap()),
    {
        let k = self.admission_slot(subject, id)?;
        match &self.live().recovery {
            Some(r) => match &r.records[k] {
                Some(rec) => {
                    assert(r.inv());
                    assert(r.records@[k as int] matches Some(x) ==> x.receipt.length <= MAX_FILE);
                    admission_of(rec)
                },
                None => Err(Error::OutcomeUnknown),
            },
            None => Err(Error::Unsupported),
        }
    }

    /// The record an admission lookup by retry selects, or its refusal.
    pub open spec fn spec_admission_find(&self, subject: u64, workspace: u32, retry: Retry) -> Result<Record, Error> {
        match self.spec_admissions() {
            Err(e) => Err(e),
            Ok(r) => if subject == 0 || workspace == 0 || retry.key == 0 || retry.epoch == 0 {
                Err(Error::Invalid)
            } else if retry.lineage != r.lineage {
                Err(Error::Lineage)
            } else if scoped_at(r.records@[0], subject, workspace, retry) {
                Ok(r.records@[0].unwrap())
            } else if scoped_at(r.records@[1], subject, workspace, retry) {
                Ok(r.records@[1].unwrap())
            } else if retry.epoch != r.epoch {
                Err(Error::ExpiredEpoch)
            } else {
                Err(Error::OutcomeUnknown)
            },
        }
    }

    /// The admission of `subject` for `retry` in `workspace`.
    pub fn admission_by_retry(&self, subject: u64, workspace: u32, retry: Retry) -> (r: Result<Admission<'_>, Error>)
        requires
            self.wf(),
        ensures
            self.spec_admission_find(subject, workspace, retry) matches Err(e) ==> r == Err::<Admission, Error>(e),
            self.spec_admission_find(subject, workspace, retry) matches Ok(rec) ==> shows_admission(r, rec),
    {
        self.admissions()?;
        let r = match &self.live().recovery {
            Some(r) => r,
            None => {
                return Err(Error::Unsupported);
            },
        };
        if subject == 0 || workspace == 0 || retry.key == 0 || retry.epoch == 0 {
            return Err(Error::Invalid);
        }
        if !crate::codec::same_bytes(&retry.lineage, &r.lineage) {
            return Err(Error::Lineage);
        }
        let mut k: usize = 0;
        while k < RETAINED
            invariant
                0 <= k <= RETAINED,
                self.wf(),
                self.spec_admissions() == Ok::<Recovery, Error>(*r),
                self.metadata().recovery == Some(*r),
                !(subject == 0 || workspace == 0 || retry.key == 0 || retry.epoch == 0),
                retry.lineage == r.lineage,
                forall|j: int| 0 <= j < k ==> !scoped_at(#[trigger] r.records@[j], subject, workspace, retry),
            decreases RETAINED - k,
        {
            if let Some(rec) = &r.records[k] {
                if let Some((w, _)) = rec.namespace {
                    if w == workspace && rec.subject == subject && crate::recovery::same_retry(&rec.receipt.retry, &retry) {
                        assert(r.inv());
                        assert(r.records@[k as int] matches Some(x) ==> x.receipt.length <= MAX_FILE);
                        assert(scoped_at(r.records@[k as int], subject, workspace, retry));
                        return admission_of(rec);
                    }
                }
            }
            k = k + 1;
        }
        if retry.epoch != r.epoch {
            return Err(Error::ExpiredEpoch);
        }
        Err(Error::OutcomeUnknown)
    }

    /// Whether cancellations retain their cause on this volume.
    pub fn prevention_reasons_enabled(&self) -> (r: Result<bool, Error>)
        ensures
            self.spec_admissions() matches Err(e) ==> r == Err::<bool, Error>(e),
            self.spec_admissions() matches Ok(x) ==> r == Ok::<bool, Error>(x.reasons),
    {
        Ok(self.admissions()?.reasons)
    }

    /// Explicit one-way migration to retained prevention causes. Records are
    /// preserved and both banks finish before success.
    pub fn enable_prevention_reasons<D: Disk>(&mut self, disk: &mut D) -> (r: Result<(), Error>)
        requires
            old(self).wf(),
        ensures
            final(self).wf(),
            old(self).spec_enable(5) matches Err(e) ==> r == Err::<(), Error>(e) && *final(self) == *old(self)
                && final(disk).contents() == old(disk).contents(),
            old(self).spec_enable(5) matches Ok(r0) ==> {
                &&& r is Ok ==> {
                    let m = final(self).metadata();
                    &&& m.recovery == Some(Recovery { reasons: true, ..r0 })
                    &&& m.nodes == old(self).metadata().nodes
                    &&& m.next == old(self).metadata().next
                    &&& old(self).metadata().sequence <= m.sequence <= old(self).metadata().sequence + 2
                    &&& !final(self).poisoned()
                }
                &&& r is Err ==> r == Err::<(), Error>(Error::Uncertain) || r == Err::<(), Error>(Error::Exhausted)
            },
    {
        self.enable_feature(disk, 5)
    }

    /// Owner-requested one-way migration to admissions; existing receipts are
    /// preserved and both banks finish before success.
    pub fn enable_admissions<D: Disk>(&mut self, disk: &mut D) -> (r: Result<(), Error>)
        requires
            old(self).wf(),
        ensures
            final(self).wf(),
            old(self).spec_enable(4) matches Err(e) ==> r == Err::<(), Error>(e) && *final(self) == *old(self)
                && final(disk).contents() == old(disk).contents(),
            old(self).spec_enable(4) matches Ok(r0) ==> {
                &&& r is Ok ==> {
                    let m = final(self).metadata();
                    &&& m.recovery == Some(Recovery { admissions: true, ..r0 })
                    &&& m.nodes == old(self).metadata().nodes
                    &&& m.next == old(self).metadata().next
                    &&& old(self).metadata().sequence <= m.sequence <= old(self).metadata().sequence + 2
                    &&& !final(self).poisoned()
                }
                &&& r is Err ==> r == Err::<(), Error>(Error::Uncertain) || r == Err::<(), Error>(Error::Exhausted)
            },
    {
        self.enable_feature(disk, 4)
    }
}

} // verus!

verus! {

/// What an admission answers before anything is published: a retained status
/// to replay, `None` to admit, or the refusal.
pub open spec fn spec_admission_replay(rec: Record, request: Replacement, bytes: Seq<u8>) -> Result<Option<AdmissionStatus>, Error> {
    match admission_refusal(rec) {
        Some(e) => Err(e),
        None => if rec.receipt.id != request.id || rec.receipt.previous != request.version
            || rec.bytes@.take(rec.receipt.length as int) != bytes {
            Err(Error::IdempotencyConflict)
        } else {
            Ok(Some(status_of(rec)))
        },
    }
}

impl Volume {
    /// What `prepare_admission` answers before anything is published.
    pub open spec fn spec_prepare_admission(&self, subject: u64, instance: u64, request: Replacement, bytes: Seq<u8>) -> Result<Option<AdmissionStatus>, Error> {
        let m = self.metadata();
        let found = self.spec_admission_find(subject, request.workspace, request.retry);
        let node = self.spec_writable(request.id);
        if bytes.len() > MAX_FILE {
            Err(Error::Size)
        } else if found is Ok {
            spec_admission_replay(found.unwrap(), request, bytes)
        } else if found->Err_0 != Error::OutcomeUnknown {
            Err(found->Err_0)
        } else if self.spec_resolve(request.workspace, request.id) is Err {
            Err(self.spec_resolve(request.workspace, request.id)->Err_0)
        } else if node is Err {
            Err(node->Err_0)
        } else if node.unwrap().kind != Kind::File {
            Err(Error::IsDirectory)
        } else if node.unwrap().version != request.version {
            Err(Error::Version)
        } else if free_slot(m.recovery.unwrap().records@) is None {
            Err(Error::Full)
        } else if m.sequence == u64::MAX {
            Err(Error::Exhausted)
        } else if instance > m.sequence + 1 {
            Err(Error::Invalid)
        } else {
            Ok(None)
        }
    }

    /// Prepare the admission of a scoped replacement without I/O: it reserves
    /// one of the two record slots and persists every argument before an
    /// identity is returned. The file is not modified.
    pub fn prepare_admission(&mut self, subject: u64, instance: u64, request: Replacement, bytes: &[u8]) -> (r: Result<Publication<AdmissionStatus>, Error>)
        requires
            old(self).wf(),
        ensures
            final(self).wf(),
            old(self).spec_prepare_admission(subject, instance, request, bytes@) matches Err(e) ==> r == Err::<Publication<AdmissionStatus>, Error>(e)
                && *final(self) == *old(self),
            old(self).spec_prepare_admission(subject, instance, request, bytes@) matches Ok(Some(st)) ==> (r matches Ok(p)
                && p.wf() && p.spec_phase() == PublicationPhase::Committed && p.spec_result() == st && !p.spec_pending()
                && !p.spec_stopping() && *final(self) == *old(self)),
            old(self).spec_prepare_admission(subject, instance, request, bytes@) == Ok::<Option<AdmissionStatus>, Error>(None) ==> (r matches Ok(p) && {
                let m0 = old(self).metadata();
                let rs = free_slot(m0.recovery.unwrap().records@).unwrap();
                let number = (m0.sequence + 1) as u64;
                let receipt = Receipt { retry: request.retry, id: request.id, previous: request.version, committed: 0, length: bytes@.len() as u16 };
                let ns = Some((request.workspace, if instance == 0 { number } else { instance }));
                let stored = Stored { number, state: AdmissionState::Admitted, terminal: 0, prevention: None };
                let m = p.plan().0;
                &&& p.wf()
                &&& p.spec_phase() == PublicationPhase::Preparing
                &&& p.spec_step() == 0
                &&& !p.spec_pending()
                &&& !p.spec_stopping()
                &&& p.plan().3 == 0
                &&& p.spec_result() == AdmissionStatus {
                    id: AdmissionId { lineage: request.retry.lineage, number },
                    state: AdmissionState::Admitted,
                    terminal: 0,
                    prevention: None,
                }
                &&& rerecorded(m0, m, rs, m.recovery.unwrap().records@[rs].unwrap())
                &&& record_holds(m.recovery.unwrap().records@[rs].unwrap(), subject, receipt, ns, bytes@, Some(stored))
                &&& final(self).poisoned()
                &&& final(self).metadata() == m0
                &&& final(self).bank() == old(self).bank()
            }),
    {
        if bytes.len() > MAX_FILE {
            return Err(Error::Size);
        }
        match self.admission_by_retry(subject, request.workspace, request.retry) {
            Ok(old) => {
                if old.request.id != request.id || old.request.version != request.version || !crate::codec::slices_equal(old.bytes, bytes) {
                    return Err(Error::IdempotencyConflict);
                }
                let status = old.status;
                return Ok(Publication::replayed(*self.live(), status));
            },
            Err(Error::OutcomeUnknown) => {},
            Err(e) => {
                return Err(e);
            },
        }
        self.resolve(request.workspace, request.id)?;
        let node = self.writable(request.id)?;
        if node.kind != Kind::File {
            return Err(Error::IsDirectory);
        }
        if node.version != request.version {
            return Err(Error::Version);
        }
        let r = self.admissions()?;
        let rs = match r.free() {
            None => {
                return Err(Error::Full);
            },
            Some(i) => i,
        };
        if self.sequence() == u64::MAX {
            return Err(Error::Exhausted);
        }
        let number = self.sequence() + 1;
        let instance = if instance == 0 { number } else { instance };
        if instance > number {
            return Err(Error::Invalid);
        }
        let receipt = Receipt { retry: request.retry, id: request.id, previous: request.version, committed: 0, length: bytes.len() as u16 };
        let stored = Stored { number, state: AdmissionState::Admitted, terminal: 0, prevention: None };
        let record = make_record(subject, receipt, Some((request.workspace, instance)), bytes, Some(stored));
        let status = AdmissionStatus {
            id: AdmissionId { lineage: request.retry.lineage, number },
            state: AdmissionState::Admitted,
            terminal: 0,
            prevention: None,
        };
        let mut r2 = r;
        r2.records[rs] = Some(record);
        let mut next = *self.live();
        next.recovery = Some(r2);
        assert(next.inv()) by {
            assert forall|k: int| 0 <= k < RETAINED implies (#[trigger] r2.records@[k] matches Some(x) ==> x.receipt.length <= MAX_FILE) by {
                if k != rs {
                    assert(r2.records@[k] == r.records@[k]);
                }
            }
        }
        Publication::metadata_only(self, next, status)
    }

    /// Admit a scoped replacement and publish the admission; a retry with the
    /// same arguments replays the retained status.
    pub fn admit_replace<D: Disk>(&mut self, disk: &mut D, subject: u64, instance: u64, request: Replacement, bytes: &[u8]) -> (r: Result<AdmissionStatus, Error>)
        requires
            old(self).wf(),
        ensures
            final(self).wf(),
            old(self).spec_prepare_admission(subject, instance, request, bytes@) matches Err(e) ==> r == Err::<AdmissionStatus, Error>(e)
                && *final(self) == *old(self) && final(disk).contents() == old(disk).contents(),
            old(self).spec_prepare_admission(subject, instance, request, bytes@) matches Ok(Some(st)) ==> r == Ok::<AdmissionStatus, Error>(st)
                && *final(self) == *old(self) && final(disk).contents() == old(disk).contents(),
            old(self).spec_prepare_admission(subject, instance, request, bytes@) == Ok::<Option<AdmissionStatus>, Error>(None) ==> {
                let m0 = old(self).metadata();
                let rs = free_slot(m0.recovery.unwrap().records@).unwrap();
                let number = (m0.sequence + 1) as u64;
                let receipt = Receipt { retry: request.retry, id: request.id, previous: request.version, committed: 0, length: bytes@.len() as u16 };
                let ns = Some((request.workspace, if instance == 0 { number } else { instance }));
                let stored = Stored { number, state: AdmissionState::Admitted, terminal: 0, prevention: None };
                &&& r matches Ok(st) ==> {
                    let m = final(self).metadata();
                    &&& st == AdmissionStatus {
                        id: AdmissionId { lineage: request.retry.lineage, number },
                        state: AdmissionState::Admitted,
                        terminal: 0,
                        prevention: None,
                    }
                    &&& rerecorded(m0, m, rs, m.recovery.unwrap().records@[rs].unwrap())
                    &&& record_holds(m.recovery.unwrap().records@[rs].unwrap(), subject, receipt, ns, bytes@, Some(stored))
                    &&& final(self).bank() == 1 - old(self).bank()
                    &&& !final(self).poisoned()
                    &&& final(disk).contents() == apply_steps(old(disk).contents(), m, (1 - old(self).bank()) as u8, spec_write_steps(m))
                }
                &&& r is Err ==> r == Err::<AdmissionStatus, Error>(Error::Uncertain) && final(self).poisoned() && final(self).metadata() == m0
            },
    {
        let mut p = self.prepare_admission(subject, instance, request, bytes)?;
        let ghost plan = p.plan();
        let ghost c = disk.contents();
        let ghost bank = (1 - self.bank()) as u8;
        proof {
            if crate::format::disk_present5(c) && plan.3 == 0 && self.bank() <= 1 {
                crate::publication::lemma_plan_inside(c, plan, bank);
            }
        }
        let r = p.run(self, disk);
        proof {
            if r is Ok && plan.3 == 0 {
                crate::publication::lemma_plan_without_data(c, plan, bank, 0, plan_total(plan));
            }
        }
        r
    }
}

} // verus!

verus! {

impl Volume {
    /// The record of `subject`'s admission `id`, or why it cannot be named.
    pub open spec fn spec_admission_record(&self, subject: u64, id: AdmissionId) -> Result<(int, Record), Error> {
        match self.spec_admission_slot(subject, id) {
            Err(e) => Err(e),
            Ok(k) => {
                let rec = self.metadata().recovery.unwrap().records@[k].unwrap();
                match admission_refusal(rec) {
                    Some(e) => Err(e),
                    None => Ok((k, rec)),
                }
            },
        }
    }

    /// What a cancellation answers before anything is published: a settled
    /// status to replay, `None` to cancel, or the refusal.
    pub open spec fn spec_cancelled(&self, subject: u64, id: AdmissionId) -> Result<Option<AdmissionStatus>, Error> {
        match self.spec_admission_record(subject, id) {
            Err(e) => Err(e),
            Ok((k, rec)) => if status_of(rec).state != AdmissionState::Admitted {
                Ok(Some(status_of(rec)))
            } else if self.metadata().sequence == u64::MAX {
                Err(Error::Exhausted)
            } else {
                Ok(None)
            },
        }
    }

    /// Prepare the terminal cancellation of an open admission with `reason`.
    fn prepare_cancelled(&mut self, subject: u64, id: AdmissionId, reason: PreventionReason) -> (r: Result<Publication<AdmissionStatus>, Error>)
        requires
            old(self).wf(),
        ensures
            final(self).wf(),
            old(self).spec_cancelled(subject, id) matches Err(e) ==> r == Err::<Publication<AdmissionStatus>, Error>(e)
                && *final(self) == *old(self),
            old(self).spec_cancelled(subject, id) matches Ok(Some(st)) ==> (r matches Ok(p)
                && p.wf() && p.spec_phase() == PublicationPhase::Committed && p.spec_result() == st && !p.spec_pending()
                && !p.spec_stopping() && *final(self) == *old(self)),
            old(self).spec_cancelled(subject, id) == Ok::<Option<AdmissionStatus>, Error>(None) ==> (r matches Ok(p) && {
                let m0 = old(self).metadata();
                let (k, rec) = old(self).spec_admission_record(subject, id).unwrap();
                let terminal = (m0.sequence + 1) as u64;
                let a = rec.admission.unwrap();
                let changed = Record { admission: Some(Stored { state: AdmissionState::Cancelled, terminal, prevention: Some(reason), ..a }), ..rec };
                &&& p.wf()
                &&& p.spec_phase() == PublicationPhase::Preparing
                &&& p.spec_step() == 0
                &&& !p.spec_pending()
                &&& !p.spec_stopping()
                &&& p.plan().3 == 0
                &&& p.spec_result() == AdmissionStatus { state: AdmissionState::Cancelled, terminal, prevention: Some(reason), ..status_of(rec) }
                &&& rerecorded(m0, p.plan().0, k, changed)
                &&& final(self).poisoned()
                &&& final(self).metadata() == m0
                &&& final(self).bank() == old(self).bank()
            }),
    {
        let k = self.admission_slot(subject, id)?;
        let old = self.admission_by_id(subject, id)?.status;
        if old.state != AdmissionState::Admitted {
            return Ok(Publication::replayed(*self.live(), old));
        }
        if self.sequence() == u64::MAX {
            return Err(Error::Exhausted);
        }
        let terminal = self.sequence() + 1;
        let mut r = self.admissions()?;
        let rec = match r.records[k] {
            Some(rec) => rec,
            None => {
                return Err(Error::OutcomeUnknown);
            },
        };
        let a = match rec.admission {
            Some(a) => a,
            None => {
                return Err(Error::Unsupported);
            },
        };
        let changed = Record { admission: Some(Stored { state: AdmissionState::Cancelled, terminal, prevention: Some(reason), ..a }), ..rec };
        let ghost r0 = r;
        r.records[k] = Some(changed);
        let mut next = *self.live();
        next.recovery = Some(r);
        assert(next.inv()) by {
            assert(r0.inv());
            assert forall|j: int| 0 <= j < RETAINED implies (#[trigger] r.records@[j] matches Some(x) ==> x.receipt.length <= MAX_FILE) by {
                assert(r0.records@[j] matches Some(x) ==> x.receipt.length <= MAX_FILE);
            }
        }
        let status = AdmissionStatus { state: AdmissionState::Cancelled, terminal, prevention: Some(reason), ..old };
        Publication::metadata_only(self, next, status)
    }

    /// What `prepare_cancellation` answers before anything is published.
    pub open spec fn spec_cancellation(&self, subject: u64, id: AdmissionId) -> Result<Option<AdmissionStatus>, Error> {
        match self.spec_admissions() {
            Err(e) => Err(e),
            Ok(_) => self.spec_cancelled(subject, id),
        }
    }

    /// The cause a plain cancellation retains.
    pub open spec fn requested_reason(&self) -> PreventionReason {
        if self.metadata().recovery.unwrap().reasons {
            PreventionReason::Requested
        } else {
            PreventionReason::Unknown
        }
    }

    /// Prepare a terminal cancellation without I/O. Abandoning this
    /// publication leaves the record admitted; only its result proves the
    /// durable cancellation. A settled admission is replayed unchanged.
    pub fn prepare_cancellation(&mut self, subject: u64, id: AdmissionId) -> (r: Result<Publication<AdmissionStatus>, Error>)
        requires
            old(self).wf(),
        ensures
            final(self).wf(),
            old(self).spec_cancellation(subject, id) matches Err(e) ==> r == Err::<Publication<AdmissionStatus>, Error>(e)
                && *final(self) == *old(self),
            old(self).spec_cancellation(subject, id) matches Ok(Some(st)) ==> (r matches Ok(p)
                && p.wf() && p.spec_phase() == PublicationPhase::Committed && p.spec_result() == st && !p.spec_pending()
                && !p.spec_stopping() && *final(self) == *old(self)),
            old(self).spec_cancellation(subject, id) == Ok::<Option<AdmissionStatus>, Error>(None) ==> (r matches Ok(p) && {
                let m0 = old(self).metadata();
                let (k, rec) = old(self).spec_admission_record(subject, id).unwrap();
                let terminal = (m0.sequence + 1) as u64;
                let reason = old(self).requested_reason();
                let a = rec.admission.unwrap();
                let changed = Record { admission: Some(Stored { state: AdmissionState::Cancelled, terminal, prevention: Some(reason), ..a }), ..rec };
                &&& p.wf()
                &&& p.spec_phase() == PublicationPhase::Preparing
                &&& p.spec_step() == 0
                &&& !p.spec_pending()
                &&& !p.spec_stopping()
                &&& p.plan().3 == 0
                &&& p.spec_result() == AdmissionStatus { state: AdmissionState::Cancelled, terminal, prevention: Some(reason), ..status_of(rec) }
                &&& rerecorded(m0, p.plan().0, k, changed)
                &&& final(self).poisoned()
                &&& final(self).metadata() == m0
                &&& final(self).bank() == old(self).bank()
            }),
    {
        let reason = if self.prevention_reasons_enabled()? {
            PreventionReason::Requested
        } else {
            PreventionReason::Unknown
        };
        self.prepare_cancelled(subject, id, reason)
    }

    /// What `prepare_prevention` answers before anything is published.
    pub open spec fn spec_prevention(&self, subject: u64, id: AdmissionId) -> Result<Option<AdmissionStatus>, Error> {
        match self.spec_admissions() {
            Err(e) => Err(e),
            Ok(r) => if !r.reasons {
                Err(Error::Unsupported)
            } else {
                self.spec_cancelled(subject, id)
            },
        }
    }

    /// Prepare a cancellation retaining a service-selected cause; volumes
    /// without retained causes are `Unsupported`. A settled admission is
    /// replayed and never changes its cause.
    pub fn prepare_prevention(&mut self, subject: u64, id: AdmissionId, reason: PreventionReason) -> (r: Result<Publication<AdmissionStatus>, Error>)
        requires
            old(self).wf(),
        ensures
            final(self).wf(),
            old(self).spec_prevention(subject, id) matches Err(e) ==> r == Err::<Publication<AdmissionStatus>, Error>(e)
                && *final(self) == *old(self),
            old(self).spec_prevention(subject, id) matches Ok(Some(st)) ==> (r matches Ok(p)
                && p.wf() && p.spec_phase() == PublicationPhase::Committed && p.spec_result() == st && !p.spec_pending()
                && !p.spec_stopping() && *final(self) == *old(self)),
            old(self).spec_prevention(subject, id) == Ok::<Option<AdmissionStatus>, Error>(None) ==> (r matches Ok(p) && {
                let m0 = old(self).metadata();
                let (k, rec) = old(self).spec_admission_record(subject, id).unwrap();
                let terminal = (m0.sequence + 1) as u64;
                let a = rec.admission.unwrap();
                let changed = Record { admission: Some(Stored { state: AdmissionState::Cancelled, terminal, prevention: Some(reason), ..a }), ..rec };
                &&& p.wf()
                &&& p.spec_phase() == PublicationPhase::Preparing
                &&& p.spec_step() == 0
                &&& !p.spec_pending()
                &&& !p.spec_stopping()
                &&& p.plan().3 == 0
                &&& p.spec_result() == AdmissionStatus { state: AdmissionState::Cancelled, terminal, prevention: Some(reason), ..status_of(rec) }
                &&& rerecorded(m0, p.plan().0, k, changed)
                &&& final(self).poisoned()
                &&& final(self).metadata() == m0
                &&& final(self).bank() == old(self).bank()
            }),
    {
        if !self.prevention_reasons_enabled()? {
            return Err(Error::Unsupported);
        }
        self.prepare_cancelled(subject, id, reason)
    }

    /// Persist a no-effect terminal state for an open admission; a settled
    /// one is returned unchanged. `Committed` means cancellation was too late.
    pub fn cancel_admission<D: Disk>(&mut self, disk: &mut D, subject: u64, id: AdmissionId) -> (r: Result<AdmissionStatus, Error>)
        requires
            old(self).wf(),
        ensures
            final(self).wf(),
            old(self).spec_cancellation(subject, id) matches Err(e) ==> r == Err::<AdmissionStatus, Error>(e)
                && *final(self) == *old(self) && final(disk).contents() == old(disk).contents(),
            old(self).spec_cancellation(subject, id) matches Ok(Some(st)) ==> r == Ok::<AdmissionStatus, Error>(st)
                && *final(self) == *old(self) && final(disk).contents() == old(disk).contents(),
            old(self).spec_cancellation(subject, id) == Ok::<Option<AdmissionStatus>, Error>(None) ==> {
                let m0 = old(self).metadata();
                let (k, rec) = old(self).spec_admission_record(subject, id).unwrap();
                let terminal = (m0.sequence + 1) as u64;
                let reason = old(self).requested_reason();
                let a = rec.admission.unwrap();
                let changed = Record { admission: Some(Stored { state: AdmissionState::Cancelled, terminal, prevention: Some(reason), ..a }), ..rec };
                &&& r matches Ok(st) ==> {
                    let m = final(self).metadata();
                    &&& st == AdmissionStatus { state: AdmissionState::Cancelled, terminal, prevention: Some(reason), ..status_of(rec) }
                    &&& rerecorded(m0, m, k, changed)
                    &&& final(self).bank() == 1 - old(self).bank()
                    &&& !final(self).poisoned()
                    &&& final(disk).contents() == apply_steps(old(disk).contents(), m, (1 - old(self).bank()) as u8, spec_write_steps(m))
                }
                &&& r is Err ==> r == Err::<AdmissionStatus, Error>(Error::Uncertain) && final(self).poisoned() && final(self).metadata() == m0
                &&& old(disk).dependable() && crate::format::disk_present5(old(disk).contents()) ==> r is Ok
            },
    {
        let mut p = self.prepare_cancellation(subject, id)?;
        let ghost plan = p.plan();
        let ghost c = disk.contents();
        let ghost bank = (1 - self.bank()) as u8;
        proof {
            if crate::format::disk_present5(c) && plan.3 == 0 && self.bank() <= 1 {
                crate::publication::lemma_plan_inside(c, plan, bank);
            }
        }
        let r = p.run(self, disk);
        proof {
            if r is Ok && plan.3 == 0 {
                crate::publication::lemma_plan_without_data(c, plan, bank, 0, plan_total(plan));
            }
        }
        r
    }
}

} // verus!

verus! {

/// `rec` executed: committed at `committed`, its admission settled there.
pub open spec fn executed(rec: Record, committed: u64) -> Record {
    Record {
        receipt: Receipt { committed, ..rec.receipt },
        admission: Some(Stored { state: AdmissionState::Committed, terminal: committed, ..rec.admission.unwrap() }),
        ..rec
    }
}

impl Volume {
    /// What executing an admission answers before anything is written: the
    /// receipt of an already committed one, `None` to execute, or the refusal.
    pub open spec fn spec_admitted(&self, subject: u64, id: AdmissionId) -> Result<Option<Receipt>, Error> {
        match self.spec_admission_record(subject, id) {
            Err(e) => Err(e),
            Ok((k, rec)) => {
                let state = rec.admission.unwrap().state;
                let w = rec.namespace.unwrap().0;
                if state == AdmissionState::Cancelled {
                    Err(Error::Cancelled)
                } else if state == AdmissionState::Committed {
                    Ok(Some(rec.receipt))
                } else if self.spec_resolve(w, rec.receipt.id) is Err {
                    Err(self.spec_resolve(w, rec.receipt.id)->Err_0)
                } else if self.metadata().sequence == u64::MAX {
                    Err(Error::Exhausted)
                } else if self.spec_plan_replace(rec.receipt.id, rec.receipt.previous, rec.receipt.length as nat) is Err {
                    Err(self.spec_plan_replace(rec.receipt.id, rec.receipt.previous, rec.receipt.length as nat)->Err_0)
                } else {
                    Ok(None)
                }
            },
        }
    }

    /// Execute an open admission after fresh authorization by the service:
    /// the current file version and workspace are checked again, and the
    /// replacement publishes together with the committed receipt. A cancelled
    /// admission is `Cancelled`; a committed one replays its receipt.
    pub fn prepare_admitted(&mut self, subject: u64, id: AdmissionId) -> (r: Result<Publication<Receipt>, Error>)
        requires
            old(self).wf(),
        ensures
            final(self).wf(),
            old(self).spec_admitted(subject, id) matches Err(e) ==> r == Err::<Publication<Receipt>, Error>(e)
                && *final(self) == *old(self),
            old(self).spec_admitted(subject, id) matches Ok(Some(rc)) ==> (r matches Ok(p)
                && p.wf() && p.spec_phase() == PublicationPhase::Committed && p.spec_result() == rc && !p.spec_pending()
                && !p.spec_stopping() && *final(self) == *old(self)),
            old(self).spec_admitted(subject, id) == Ok::<Option<Receipt>, Error>(None) ==> (r matches Ok(p) && {
                let m0 = old(self).metadata();
                let (k, rec) = old(self).spec_admission_record(subject, id).unwrap();
                let committed = (m0.sequence + 1) as u64;
                let bytes = rec.bytes@.take(rec.receipt.length as int);
                let slot = find_id(m0.nodes@, rec.receipt.id, 0).unwrap();
                let m = p.plan().0;
                &&& p.wf()
                &&& p.spec_phase() == PublicationPhase::Preparing
                &&& p.spec_step() == 0
                &&& !p.spec_pending()
                &&& !p.spec_stopping()
                &&& p.spec_result() == executed(rec, committed).receipt
                &&& p.plan() == recorded_plan(m, slot, bytes)
                &&& m.sequence == m0.sequence + 1
                &&& m.next == m0.next
                &&& m.nodes@ == m0.nodes@.update(slot, m.nodes@[slot])
                &&& crate::volume::replaced(m.nodes@[slot], m0.nodes@[slot], bytes, m.sequence)
                &&& m.recovery == Some(Recovery { records: m.recovery.unwrap().records, ..m0.recovery.unwrap() })
                &&& m.recovery.unwrap().records@ == m0.recovery.unwrap().records@.update(k, Some(executed(rec, committed)))
                &&& final(self).poisoned()
                &&& final(self).metadata() == m0
                &&& final(self).bank() == old(self).bank()
            }),
    {
        let k = self.admission_slot(subject, id)?;
        let r = self.admissions()?;
        let rec = match r.records[k] {
            Some(rec) => rec,
            None => {
                return Err(Error::OutcomeUnknown);
            },
        };
        let a = match rec.admission {
            Some(a) => a,
            None => {
                return Err(Error::Unsupported);
            },
        };
        let workspace = match rec.namespace {
            Some((w, _)) => w,
            None => {
                return Err(Error::Corrupt);
            },
        };
        if a.state == AdmissionState::Cancelled {
            return Err(Error::Cancelled);
        }
        if a.state == AdmissionState::Committed {
            return Ok(Publication::replayed(*self.live(), rec.receipt));
        }
        self.resolve(workspace, rec.receipt.id)?;
        if self.sequence() == u64::MAX {
            return Err(Error::Exhausted);
        }
        let committed = self.sequence() + 1;
        let receipt = Receipt { committed, ..rec.receipt };
        let changed = Record {
            receipt,
            admission: Some(Stored { state: AdmissionState::Committed, terminal: committed, ..a }),
            ..rec
        };
        assert(r.inv());
        assert(r.records@[k as int] matches Some(x) ==> x.receipt.length <= MAX_FILE);
        let bytes = vstd::slice::slice_subrange(rec.bytes.as_slice(), 0, rec.receipt.length as usize);
        assert(bytes@ =~= rec.bytes@.take(rec.receipt.length as int));
        self.prepare_recorded(receipt.id, receipt.previous, bytes, r, k, changed, receipt)
    }
}

} // verus!

verus! {

/// A cancellation is what a later lookup shows: once `cancel_admission` has
/// cancelled `subject`'s open admission `id`, moving `before` to `after` and
/// answering `st`, a lookup of `id` on `after` selects the slot it was in,
/// which holds an admission whose status is `st`.
pub proof fn lemma_cancel_then_lookup(before: Volume, after: Volume, subject: u64, id: AdmissionId, st: AdmissionStatus)
    requires
        before.wf(),
        before.spec_cancellation(subject, id) == Ok::<Option<AdmissionStatus>, Error>(None),
        ({
            let m0 = before.metadata();
            let (k, rec) = before.spec_admission_record(subject, id).unwrap();
            let terminal = (m0.sequence + 1) as u64;
            let reason = before.requested_reason();
            let a = rec.admission.unwrap();
            let changed = Record { admission: Some(Stored { state: AdmissionState::Cancelled, terminal, prevention: Some(reason), ..a }), ..rec };
            &&& st == AdmissionStatus { state: AdmissionState::Cancelled, terminal, prevention: Some(reason), ..status_of(rec) }
            &&& rerecorded(m0, after.metadata(), k, changed)
            &&& !after.poisoned()
        }),
    ensures
        ({
            let k = before.spec_admission_record(subject, id).unwrap().0;
            let shown = after.metadata().recovery.unwrap().records@[k];
            &&& after.spec_admission_slot(subject, id) == Ok::<int, Error>(k)
            &&& shown is Some
            &&& admission_refusal(shown.unwrap()) is None
            &&& status_of(shown.unwrap()) == st
            &&& st.state == AdmissionState::Cancelled
            &&& st.terminal == before.metadata().sequence + 1
        }),
{
    let m0 = before.metadata();
    let (k, rec) = before.spec_admission_record(subject, id).unwrap();
    let r1 = after.metadata().recovery.unwrap();
    assert(before.spec_admission_slot(subject, id) == Ok::<int, Error>(k));
    assert(0 <= k < 2);
    assert(r1.records@[k] == Some(Record { admission: Some(Stored { state: AdmissionState::Cancelled, terminal: (m0.sequence + 1) as u64,
        prevention: Some(before.requested_reason()), ..rec.admission.unwrap() }), ..rec }));
}

} // verus!

verus! {

/// An inspected admission carries a receipt exactly when it has committed,
/// and that receipt is the one retained with the admission; an admission
/// still open, or cancelled, carries none.
pub proof fn lemma_admission_receipt<'a>(r: Result<Admission<'a>, Error>, rec: Record)
    requires
        shows_admission(r, rec),
    ensures
        r matches Ok(a) ==> {
            &&& a.receipt is Some <==> a.status.state == AdmissionState::Committed
            &&& a.receipt matches Some(rc) ==> rc == rec.receipt
            &&& a.status.state == rec.admission.unwrap().state
        },
{
}

/// An admission retry replays only what it admitted: preparing an admission
/// answers with a retained status only when the record the retry finds was
/// admitted for the same file, on the same version, with exactly the
/// supplied bytes.
pub proof fn lemma_admission_replay_same_bytes(v: Volume, subject: u64, instance: u64, request: Replacement, bytes: Seq<u8>)
    ensures
        v.spec_prepare_admission(subject, instance, request, bytes) matches Ok(Some(st)) ==> {
            &&& v.spec_admission_find(subject, request.workspace, request.retry) is Ok
            &&& {
                let rec = v.spec_admission_find(subject, request.workspace, request.retry)->Ok_0;
                &&& rec.receipt.id == request.id
                &&& rec.receipt.previous == request.version
                &&& rec.bytes@.take(rec.receipt.length as int) == bytes
                &&& st == status_of(rec)
            }
        },
{
}

} // verus!
