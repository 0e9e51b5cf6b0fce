//! The single flush-ordered publication path shared by every v5 mutation: an
//! optional data extent (two sectors and a flush), then the generation's
//! commands. Preparing is volatile; only a settled final flush makes the next
//! generation live, and only a publication whose header was never submitted
//! can be cancelled.
use vstd::prelude::*;
use crate::format::{Metadata, Command, command_effect, effect, step_effect, spec_write_steps};
use crate::storage::Disk;
use crate::volume::Volume;
use crate::{Error, MAX_FILE};

verus! {

/// Local publication mechanics; these are not service operation states.
#[derive(Clone, Copy, Debug, PartialEq, Eq, Structural)]
pub enum PublicationPhase {
    Preparing,
    ReadyToPublish,
    /// The header may have been submitted; the final flush has not yet succeeded.
    Settling,
    Committed,
    Cancelled,
    Uncertain,
}

/// What a cancellation request achieved.
#[derive(Clone, Copy, Debug, PartialEq, Eq, Structural)]
pub enum PublicationCancel {
    /// No publication header was submitted. No durable cancellation record is stored.
    Cancelled,
    /// The header may already be visible, or this is a committed replay.
    TooLate,
    /// A scratch command is outstanding. Stop after it settles successfully.
    Draining,
}

/// What a publication writes: the next generation, the data bytes, the first
/// data sector, and how many data commands come first (0 or 3).
pub type Plan = (Metadata, Seq<u8>, u64, nat);

/// Commands the whole publication takes.
pub open spec fn plan_total(p: Plan) -> nat {
    p.3 + spec_write_steps(p.0)
}

/// The command at `step` of a publication to `bank`.
pub open spec fn plan_effect(p: Plan, bank: u8, step: int) -> Option<(u64, Seq<u8>)> {
    if step < p.3 {
        if step == 0 {
            Some((p.2, p.1.subrange(0, 512)))
        } else if step == 1 {
            Some(((p.2 + 1) as u64, p.1.subrange(512, 1024)))
        } else {
            None
        }
    } else {
        step_effect(p.0, bank, step - p.3)
    }
}

/// The device after the commands `from..to` of a publication to `bank`.
pub open spec fn apply_plan(c: Map<u64, Seq<u8>>, p: Plan, bank: u8, from: nat, to: nat) -> Map<u64, Seq<u8>>
    decreases to - from,
{
    if from >= to {
        c
    } else {
        apply_plan(effect(c, plan_effect(p, bank, from as int)), p, bank, from + 1, to)
    }
}

/// Every sector a publication to `bank` writes is one the device holds.
pub open spec fn plan_present(c: Map<u64, Seq<u8>>, p: Plan, bank: u8) -> bool {
    forall|step: int| 0 <= step < plan_total(p) ==> (#[trigger] plan_effect(p, bank, step) matches Some(w) ==> c.dom().contains(w.0))
}

/// A publication whose data sectors lie in the layout writes only sectors a
/// device holding the layout holds.
pub proof fn lemma_plan_inside(c: Map<u64, Seq<u8>>, p: Plan, bank: u8)
    requires
        crate::format::disk_present5(c),
        bank <= 1,
        p.3 != 0 ==> p.2 + 1 < crate::SECTORS,
    ensures
        plan_present(c, p, bank),
{
    crate::format::lemma_steps_inside(c, p.0, bank);
    assert forall|step: int| 0 <= step < plan_total(p) implies (#[trigger] plan_effect(p, bank, step) matches Some(w) ==> c.dom().contains(w.0)) by {
        if step >= p.3 {
            assert(step_effect(p.0, bank, step - p.3) matches Some(w) ==> c.dom().contains(w.0));
        }
    }
}

/// Without data commands, a publication's commands are the generation's own.
pub proof fn lemma_plan_without_data(c: Map<u64, Seq<u8>>, p: Plan, bank: u8, k: nat, n: nat)
    requires
        p.3 == 0,
        k <= n,
    ensures
        apply_plan(crate::format::apply_steps(c, p.0, bank, k), p, bank, k, n) == crate::format::apply_steps(c, p.0, bank, n),
    decreases n - k,
{
    if k < n {
        lemma_plan_without_data(c, p, bank, k + 1, n);
    }
}

/// The phase a publication shows after `step` commands have settled.
pub open spec fn phase_after(step: nat, total: nat) -> PublicationPhase {
    if step == total {
        PublicationPhase::Committed
    } else if step + 1 == total {
        PublicationPhase::Settling
    } else if step + 2 == total {
        PublicationPhase::ReadyToPublish
    } else {
        PublicationPhase::Preparing
    }
}

/// Exclusively drives one prepared change of a volume to settlement.
/// Preparing neither reserves a durable operation nor acknowledges work.
pub struct Publication<T> {
    next: Metadata,
    data: [u8; MAX_FILE],
    first_sector: u64,
    data_steps: usize,
    step: usize,
    phase: PublicationPhase,
    result: T,
    pending: bool,
    stopping: bool,
}

impl<T: Copy> Publication<T> {
    pub closed spec fn plan(&self) -> Plan {
        (self.next, self.data@, self.first_sector, self.data_steps as nat)
    }

    pub closed spec fn spec_step(&self) -> nat {
        self.step as nat
    }

    pub closed spec fn spec_phase(&self) -> PublicationPhase {
        self.phase
    }

    pub closed spec fn spec_result(&self) -> T {
        self.result
    }

    pub closed spec fn spec_pending(&self) -> bool {
        self.pending
    }

    pub closed spec fn spec_stopping(&self) -> bool {
        self.stopping
    }

    /// The phase, step and flags agree.
    pub closed spec fn wf(&self) -> bool {
        let total = plan_total(self.plan());
        &&& self.data_steps == 0 || self.data_steps == 3
        &&& self.next.inv()
        &&& self.step <= total
        &&& self.first_sector < u64::MAX
        &&& self.phase == PublicationPhase::Preparing ==> self.step + 2 < total
        &&& self.phase == PublicationPhase::ReadyToPublish ==> self.step + 2 == total && !self.pending
        &&& self.phase == PublicationPhase::Settling ==> self.step + 1 == total || (self.step + 2
            == total && self.pending)
        &&& self.phase == PublicationPhase::Committed ==> self.step == total && !self.pending
        &&& self.phase == PublicationPhase::Cancelled ==> !self.pending
        &&& self.stopping ==> self.phase == PublicationPhase::Cancelled || self.phase
            == PublicationPhase::Uncertain || (self.pending && self.step + 2 < total && self.phase
            == PublicationPhase::Preparing)
    }

    /// A publication of `next`, with `bytes` first written from `first_sector`
    /// when `data` holds. Raises the volume's fence until it settles or is
    /// cancelled before its header.
    pub(crate) fn new(volume: &mut Volume, next: Metadata, first_sector: u64, bytes: &[u8], with_data: bool, result: T) -> (r: Self)
        requires
            bytes@.len() <= MAX_FILE,
            next.inv(),
            first_sector < u64::MAX,
        ensures
            r.wf(),
            r.spec_phase() == PublicationPhase::Preparing,
            r.spec_step() == 0,
            !r.spec_pending(),
            !r.spec_stopping(),
            r.spec_result() == result,
            r.plan().0 == next,
            r.plan().2 == first_sector,
            r.plan().3 == if with_data { 3nat } else { 0nat },
            r.plan().1.subrange(0, bytes@.len() as int) == bytes@,
            crate::codec::zero_range(r.plan().1, bytes@.len() as int, MAX_FILE as int),
            r.plan().1.len() == MAX_FILE,
            final(volume).poisoned(),
            final(volume).metadata() == old(volume).metadata(),
            final(volume).bank() == old(volume).bank(),
    {
        let mut data = [0u8; MAX_FILE];
        crate::codec::put(&mut data, 0, bytes);
        volume.fence();
        proof {
            assert(data@.subrange(0, bytes@.len() as int) =~= bytes@);
        }
        Self {
            next,
            data,
            first_sector,
            data_steps: if with_data { 3 } else { 0 },
            step: 0,
            phase: PublicationPhase::Preparing,
            result,
            pending: false,
            stopping: false,
        }
    }

    /// A metadata-only publication of `next` at the volume's following
    /// sequence, under the same encoder, fence and settlement rules.
    pub(crate) fn metadata_only(volume: &mut Volume, next: Metadata, result: T) -> (r: Result<Self, Error>)
        requires
            next.inv(),
        ensures
            old(volume).metadata().sequence == u64::MAX ==> r == Err::<Self, Error>(Error::Exhausted) && *final(volume) == *old(volume),
            old(volume).metadata().sequence < u64::MAX ==> (r matches Ok(p) && {
                &&& p.wf()
                &&& p.spec_phase() == PublicationPhase::Preparing
                &&& p.spec_step() == 0
                &&& !p.spec_pending()
                &&& !p.spec_stopping()
                &&& p.spec_result() == result
                &&& p.plan().0 == Metadata { sequence: (old(volume).metadata().sequence + 1) as u64, ..next }
                &&& p.plan().3 == 0
                &&& final(volume).poisoned()
                &&& final(volume).metadata() == old(volume).metadata()
                &&& final(volume).bank() == old(volume).bank()
            }),
    {
        let sequence = volume.sequence();
        if sequence == u64::MAX {
            return Err(Error::Exhausted);
        }
        let mut next = next;
        next.sequence = sequence + 1;
        let empty: [u8; 0] = [];
        Ok(Self::new(volume, next, 0, empty.as_slice(), false, result))
    }

    /// An already committed outcome: nothing is written and the volume is untouched.
    pub(crate) fn replayed(next: Metadata, result: T) -> (r: Self)
        requires
            next.inv(),
        ensures
            r.wf(),
            r.spec_phase() == PublicationPhase::Committed,
            r.spec_result() == result,
            !r.spec_pending(),
            !r.spec_stopping(),
    {
        let steps = next.write_steps();
        Self {
            next,
            data: [0u8; MAX_FILE],
            first_sector: 0,
            data_steps: 0,
            step: steps,
            phase: PublicationPhase::Committed,
            result,
            pending: false,
            stopping: false,
        }
    }

    pub fn phase(&self) -> (r: PublicationPhase)
        ensures
            r == self.spec_phase(),
    {
        self.phase
    }

    /// No speculative receipt or version is returned before settlement.
    pub fn result(&self) -> (r: Option<T>)
        ensures
            r == if self.spec_phase() == PublicationPhase::Committed {
                Some(self.spec_result())
            } else {
                None
            },
    {
        if self.phase == PublicationPhase::Committed {
            Some(self.result)
        } else {
            None
        }
    }

    /// True means a submitted command still needs settlement.
    pub fn pending(&self) -> (r: bool)
        ensures
            r == self.spec_pending(),
    {
        self.pending
    }

    /// The command to submit now to a device holding `volume`: `None` once
    /// settled, `Uncertain` after a failure.
    pub fn next_command(&self, volume: &Volume) -> (r: Result<Option<Command>, Error>)
        requires
            self.wf(),
            volume.bank() <= 1,
        ensures
            (self.spec_phase() == PublicationPhase::Committed || self.spec_phase() == PublicationPhase::Cancelled) ==> r == Ok::<Option<Command>, Error>(None),
            self.spec_phase() == PublicationPhase::Uncertain ==> r == Err::<Option<Command>, Error>(Error::Uncertain),
            is_live(self.spec_phase()) ==> (r matches Ok(Some(c)) && command_effect(c) == plan_effect(self.plan(), (1 - volume.bank()) as u8, self.spec_step() as int)),
    {
        match self.phase {
            PublicationPhase::Committed | PublicationPhase::Cancelled => {
                return Ok(None);
            },
            PublicationPhase::Uncertain => {
                return Err(Error::Uncertain);
            },
            _ => {},
        }
        let bank = 1 - volume.live_bank();
        if self.step >= self.data_steps {
            match self.next.command(bank, self.step - self.data_steps) {
                Ok(c) => Ok(Some(c)),
                Err(e) => Err(e),
            }
        } else if self.step == 0 {
            let chunk: [u8; 512] = crate::codec::take_array(&self.data, 0);
            Ok(Some(Command::Write(self.first_sector, chunk)))
        } else if self.step == 1 {
            let chunk: [u8; 512] = crate::codec::take_array(&self.data, 512);
            Ok(Some(Command::Write(self.first_sector + 1, chunk)))
        } else {
            Ok(Some(Command::Flush))
        }
    }

    /// The submitted command has not settled yet. Once the header is
    /// outstanding the publication shows `Settling`.
    pub fn pend(&mut self)
        requires
            old(self).wf(),
            is_live(old(self).spec_phase()),
        ensures
            final(self).wf(),
            final(self).spec_pending(),
            final(self).plan() == old(self).plan(),
            final(self).spec_step() == old(self).spec_step(),
            final(self).spec_result() == old(self).spec_result(),
            final(self).spec_stopping() == old(self).spec_stopping(),
            final(self).spec_phase() == if old(self).spec_step() + 2 >= plan_total(old(self).plan()) {
                PublicationPhase::Settling
            } else {
                old(self).spec_phase()
            },
    {
        let total = self.data_steps + self.next.write_steps();
        if self.step + 2 >= total {
            self.phase = PublicationPhase::Settling;
        }
        self.pending = true;
    }

    /// Record how the submitted command settled. A failure leaves the
    /// publication `Uncertain` and the volume fenced; success moves to the next
    /// command, and the last one makes the next generation live.
    pub fn settle(&mut self, volume: &mut Volume, outcome: Result<(), Error>) -> (r: Result<PublicationPhase, Error>)
        requires
            old(self).wf(),
            is_live(old(self).spec_phase()),
            old(volume).bank() <= 1,
        ensures
            final(self).wf(),
            final(self).plan() == old(self).plan(),
            final(self).spec_result() == old(self).spec_result(),
            final(self).spec_stopping() == old(self).spec_stopping(),
            outcome is Err ==> r == Err::<PublicationPhase, Error>(Error::Uncertain)
                && final(self).spec_phase() == PublicationPhase::Uncertain && final(self).spec_pending()
                && *final(volume) == *old(volume),
            outcome is Ok ==> {
                let step = old(self).spec_step() + 1;
                let total = plan_total(old(self).plan());
                &&& final(self).spec_step() == step
                &&& !final(self).spec_pending()
                &&& r == Ok::<PublicationPhase, Error>(final(self).spec_phase())
                &&& if old(self).spec_stopping() {
                    &&& final(self).spec_phase() == PublicationPhase::Cancelled
                    &&& !final(volume).poisoned()
                    &&& final(volume).metadata() == old(volume).metadata()
                    &&& final(volume).bank() == old(volume).bank()
                } else {
                    &&& final(self).spec_phase() == phase_after(step, total)
                    &&& step == total ==> final(volume).metadata() == old(self).plan().0
                        && final(volume).bank() == 1 - old(volume).bank() && !final(volume).poisoned()
                    &&& step < total ==> *final(volume) == *old(volume)
                }
            },
    {
        if outcome.is_err() {
            self.phase = PublicationPhase::Uncertain;
            self.pending = true;
            return Err(Error::Uncertain);
        }
        let total = self.data_steps + self.next.write_steps();
        self.pending = false;
        self.step = self.step + 1;
        self.phase = if self.step == total {
            volume.install(self.next);
            PublicationPhase::Committed
        } else if self.step + 1 == total {
            PublicationPhase::Settling
        } else if self.step + 2 == total {
            PublicationPhase::ReadyToPublish
        } else {
            PublicationPhase::Preparing
        };
        if self.stopping {
            self.phase = PublicationPhase::Cancelled;
            volume.unfence();
        }
        Ok(self.phase)
    }

    /// Settle one command synchronously. A settled publication reports its
    /// phase again; a pending or failed one is `Uncertain`.
    pub fn advance<D: Disk>(&mut self, volume: &mut Volume, disk: &mut D) -> (r: Result<PublicationPhase, Error>)
        requires
            old(self).wf(),
            old(volume).bank() <= 1,
        ensures
            final(self).wf(),
            final(self).plan() == old(self).plan(),
            final(self).spec_result() == old(self).spec_result(),
            final(self).spec_stopping() == old(self).spec_stopping(),
            old(self).spec_pending() ==> r == Err::<PublicationPhase, Error>(Error::Uncertain)
                && *final(self) == *old(self) && *final(volume) == *old(volume) && final(disk).contents() == old(disk).contents(),
            !old(self).spec_pending() && !is_live(old(self).spec_phase()) ==> *final(self) == *old(self)
                && *final(volume) == *old(volume) && final(disk).contents() == old(disk).contents() && (
            if old(self).spec_phase() == PublicationPhase::Uncertain {
                r == Err::<PublicationPhase, Error>(Error::Uncertain)
            } else {
                r == Ok::<PublicationPhase, Error>(old(self).spec_phase())
            }),
            final(disk).dependable() == old(disk).dependable(),
            !old(self).spec_pending() && is_live(old(self).spec_phase()) && old(disk).dependable()
                && (plan_effect(old(self).plan(), (1 - old(volume).bank()) as u8, old(self).spec_step() as int) matches Some(w)
                ==> old(disk).contents().dom().contains(w.0)) ==> r is Ok,
            !old(self).spec_pending() && is_live(old(self).spec_phase()) ==> {
                let step = old(self).spec_step() + 1;
                let total = plan_total(old(self).plan());
                &&& r is Err ==> r == Err::<PublicationPhase, Error>(Error::Uncertain)
                    && final(self).spec_phase() == PublicationPhase::Uncertain && *final(volume) == *old(volume)
                &&& r is Ok ==> {
                    &&& final(self).spec_step() == step
                    &&& !final(self).spec_pending()
                    &&& r == Ok::<PublicationPhase, Error>(final(self).spec_phase())
                    &&& (!old(self).spec_stopping() ==> final(self).spec_phase() == phase_after(step, total))
                    &&& final(disk).contents() == effect(old(disk).contents(), plan_effect(old(self).plan(), (1 - old(volume).bank()) as u8, old(self).spec_step() as int))
                    &&& !old(self).spec_stopping() && step == total ==> final(volume).metadata() == old(self).plan().0
                        && final(volume).bank() == 1 - old(volume).bank() && !final(volume).poisoned()
                    &&& !old(self).spec_stopping() && step < total ==> *final(volume) == *old(volume)
                }
            },
    {
        if self.pending {
            return Err(Error::Uncertain);
        }
        let command = match self.next_command(volume)? {
            None => {
                return Ok(self.phase);
            },
            Some(c) => c,
        };
        let outcome = command.execute(disk);
        self.settle(volume, outcome)
    }

    /// Stop before the header: cancelled at once unless a scratch command is
    /// outstanding, in which case it is `Draining` until that settles. After
    /// the header may have been submitted, `TooLate`.
    pub fn cancel(&mut self, volume: &mut Volume) -> (r: Result<PublicationCancel, Error>)
        requires
            old(self).wf(),
        ensures
            final(self).wf(),
            final(self).plan() == old(self).plan(),
            final(self).spec_step() == old(self).spec_step(),
            final(self).spec_result() == old(self).spec_result(),
            final(volume).metadata() == old(volume).metadata(),
            final(volume).bank() == old(volume).bank(),
            r == spec_cancel(old(self).spec_phase(), old(self).spec_pending()),
            r == Ok::<PublicationCancel, Error>(PublicationCancel::Cancelled) ==> final(self).spec_phase()
                == PublicationPhase::Cancelled && !final(volume).poisoned(),
            r != Ok::<PublicationCancel, Error>(PublicationCancel::Cancelled) ==> final(self).spec_phase()
                == old(self).spec_phase() && final(volume).poisoned() == old(volume).poisoned(),
            r == Ok::<PublicationCancel, Error>(PublicationCancel::Draining) ==> final(self).spec_stopping(),
    {
        match self.phase {
            PublicationPhase::Preparing | PublicationPhase::ReadyToPublish | PublicationPhase::Cancelled => {
                if self.pending {
                    self.stopping = true;
                    return Ok(PublicationCancel::Draining);
                }
                self.phase = PublicationPhase::Cancelled;
                volume.unfence();
                Ok(PublicationCancel::Cancelled)
            },
            PublicationPhase::Settling | PublicationPhase::Committed => Ok(PublicationCancel::TooLate),
            PublicationPhase::Uncertain => Err(Error::Uncertain),
        }
    }

    /// Drive to settlement. A cancelled publication is `Invalid`.
    pub fn run<D: Disk>(&mut self, volume: &mut Volume, disk: &mut D) -> (r: Result<T, Error>)
        requires
            old(self).wf(),
            old(volume).bank() <= 1,
            !old(self).spec_pending(),
            old(self).spec_phase() != PublicationPhase::Uncertain,
            !old(self).spec_stopping(),
        ensures
            final(self).wf(),
            r matches Ok(t) ==> t == old(self).spec_result() && final(self).spec_phase() == PublicationPhase::Committed,
            r is Ok && is_live(old(self).spec_phase()) ==> final(volume).metadata() == old(self).plan().0
                && final(volume).bank() == 1 - old(volume).bank() && !final(volume).poisoned()
                && final(disk).contents() == apply_plan(old(disk).contents(), old(self).plan(), (1 - old(volume).bank()) as u8, old(self).spec_step(), plan_total(old(self).plan())),
            r is Ok && !is_live(old(self).spec_phase()) ==> *final(volume) == *old(volume) && final(disk).contents() == old(disk).contents(),
            r is Err ==> *final(volume) == *old(volume),
            old(volume).wf() ==> final(volume).wf(),
            r is Err && old(self).spec_phase() != PublicationPhase::Cancelled ==> r == Err::<T, Error>(Error::Uncertain),
            old(self).spec_phase() == PublicationPhase::Cancelled ==> r == Err::<T, Error>(Error::Invalid),
            old(self).spec_phase() == PublicationPhase::Committed ==> r == Ok::<T, Error>(old(self).spec_result())
                && *final(volume) == *old(volume) && final(disk).contents() == old(disk).contents(),
            final(disk).dependable() == old(disk).dependable(),
            old(disk).dependable() && plan_present(old(disk).contents(), old(self).plan(), (1 - old(volume).bank()) as u8)
                && old(self).spec_phase() != PublicationPhase::Cancelled ==> r is Ok,
    {
        let ghost c0 = disk.contents();
        let ghost b0 = volume.bank();
        let ghost target = (1 - volume.bank()) as u8;
        let ghost p = self.plan();
        let ghost s0 = self.spec_step();
        let ghost live0 = is_live(self.spec_phase());
        while self.phase != PublicationPhase::Committed
            invariant
                self.wf(),
                self.plan() == p,
                self.spec_result() == old(self).spec_result(),
                !self.spec_pending(),
                !self.spec_stopping(),
                self.spec_phase() != PublicationPhase::Uncertain,
                old(self).spec_phase() == PublicationPhase::Cancelled ==> self.spec_phase() == PublicationPhase::Cancelled,
                old(self).spec_phase() != PublicationPhase::Cancelled ==> self.spec_phase() != PublicationPhase::Cancelled,
                live0 == is_live(old(self).spec_phase()),
                s0 == old(self).spec_step(),
                p == old(self).plan(),
                b0 == old(volume).bank(),
                target == 1 - b0,
                live0 && self.spec_phase() != PublicationPhase::Committed ==> *volume == *old(volume),
                live0 && self.spec_phase() == PublicationPhase::Committed ==> volume.metadata() == p.0
                    && volume.bank() == 1 - b0 && !volume.poisoned(),
                !live0 ==> self.spec_phase() == old(self).spec_phase(),
                volume.bank() <= 1,
                old(volume).wf() ==> volume.wf(),
                live0 && self.spec_phase() != PublicationPhase::Cancelled ==> apply_plan(c0, p, target, s0, plan_total(p)) == apply_plan(disk.contents(), p, target, self.spec_step(), plan_total(p)),
                !live0 ==> *volume == *old(volume) && disk.contents() == c0,
                c0 == old(disk).contents(),
                disk.dependable() == old(disk).dependable(),
                forall|x: u64| #[trigger] c0.dom().contains(x) ==> disk.contents().dom().contains(x),
                live0 && self.spec_phase() != PublicationPhase::Committed ==> self.spec_step() < plan_total(p),
            decreases plan_total(p) - self.spec_step(),
        {
            if self.phase == PublicationPhase::Cancelled {
                return Err(Error::Invalid);
            }
            let ghost before = disk.contents();
            let ghost step = self.spec_step();
            proof {
                if old(disk).dependable() && plan_present(c0, p, target) && is_live(self.spec_phase()) {
                    assert(plan_effect(p, target, step as int) matches Some(w) ==> c0.dom().contains(w.0));
                }
            }
            self.advance(volume, disk)?;
            proof {
                assert(apply_plan(before, p, target, step, plan_total(p)) == apply_plan(disk.contents(), p, target, step + 1, plan_total(p)));
                assert forall|x: u64| #[trigger] c0.dom().contains(x) implies disk.contents().dom().contains(x) by {
                    assert(before.dom().contains(x));
                }
            }
        }
        Ok(self.result)
    }
}

/// The phases in which commands remain to be submitted.
pub open spec fn is_live(phase: PublicationPhase) -> bool {
    phase == PublicationPhase::Preparing || phase == PublicationPhase::ReadyToPublish || phase
        == PublicationPhase::Settling
}

/// What `cancel` answers in each phase.
pub open spec fn spec_cancel(phase: PublicationPhase, pending: bool) -> Result<PublicationCancel, Error> {
    match phase {
        PublicationPhase::Preparing | PublicationPhase::ReadyToPublish | PublicationPhase::Cancelled => if pending {
            Ok(PublicationCancel::Draining)
        } else {
            Ok(PublicationCancel::Cancelled)
        },
        PublicationPhase::Settling | PublicationPhase::Committed => Ok(PublicationCancel::TooLate),
        PublicationPhase::Uncertain => Err(Error::Uncertain),
    }
}

} // verus!
